//! The reasoner: interns triples, materializes their OWL 2 RL closure, and
//! reports rule violations.
use vstd::prelude::*;
use crate::common::{Term, TermView, Triple, TripleView};
use crate::diagnostics::{ReasoningError, ReasoningErrorView, ReasonerOptions};
use crate::index::{URIIndex, sentinel, oxrdf_valid_iri};
use crate::relation::{KeyedTriple, URI, sorted_strict, sorted, lemma_sorted_filter};
use crate::violations::{cax_dw, prp_irp, prp_asyp, prp_pdw, cls_nothing2, find_cax_dw, find_prp_irp, find_prp_asyp, find_prp_pdw, find_cls_nothing2};
use crate::rules::{Vocab, Lists, closed};
use crate::error::ReasonableError;
use crate::rdf_lists::{DisjointSets, copy_triples, list_members, greatest_first};
use crate::closure::lists_of;
use crate::complement::{materialize, derives_complement, least_with_complements, complement_closed, first_fixed_stage, stage};

verus! {

/// The IRIs of the vocabulary terms that the rules mention, in the order in
/// which a new reasoner interns them.
pub open spec fn vocab_iris() -> Seq<Seq<char>> {
    seq![
        "http://www.w3.org/1999/02/22-rdf-syntax-ns#type"@,
        "http://www.w3.org/1999/02/22-rdf-syntax-ns#first"@,
        "http://www.w3.org/1999/02/22-rdf-syntax-ns#rest"@,
        "http://www.w3.org/1999/02/22-rdf-syntax-ns#nil"@,
        "http://www.w3.org/2000/01/rdf-schema#domain"@,
        "http://www.w3.org/2000/01/rdf-schema#range"@,
        "http://www.w3.org/2000/01/rdf-schema#subPropertyOf"@,
        "http://www.w3.org/2000/01/rdf-schema#subClassOf"@,
        "http://www.w3.org/2002/07/owl#Thing"@,
        "http://www.w3.org/2002/07/owl#Nothing"@,
        "http://www.w3.org/2002/07/owl#sameAs"@,
        "http://www.w3.org/2002/07/owl#inverseOf"@,
        "http://www.w3.org/2002/07/owl#SymmetricProperty"@,
        "http://www.w3.org/2002/07/owl#IrreflexiveProperty"@,
        "http://www.w3.org/2002/07/owl#AsymmetricProperty"@,
        "http://www.w3.org/2002/07/owl#TransitiveProperty"@,
        "http://www.w3.org/2002/07/owl#equivalentProperty"@,
        "http://www.w3.org/2002/07/owl#equivalentClass"@,
        "http://www.w3.org/2002/07/owl#FunctionalProperty"@,
        "http://www.w3.org/2002/07/owl#InverseFunctionalProperty"@,
        "http://www.w3.org/2002/07/owl#intersectionOf"@,
        "http://www.w3.org/2002/07/owl#unionOf"@,
        "http://www.w3.org/2002/07/owl#hasValue"@,
        "http://www.w3.org/2002/07/owl#allValuesFrom"@,
        "http://www.w3.org/2002/07/owl#someValuesFrom"@,
        "http://www.w3.org/2002/07/owl#disjointWith"@,
        "http://www.w3.org/2002/07/owl#onProperty"@,
        "http://www.w3.org/2002/07/owl#complementOf"@,
        "http://www.w3.org/2002/07/owl#propertyDisjointWith"@,
        "http://www.w3.org/2002/07/owl#Class"@,
    ]
}

/// The identifiers of the vocabulary, in the order of `vocab_iris`.
pub open spec fn vocab_ids(v: Vocab) -> Seq<URI> {
    seq![
        v.rdf_type,
        v.rdf_first,
        v.rdf_rest,
        v.rdf_nil,
        v.rdfs_domain,
        v.rdfs_range,
        v.rdfs_subprop,
        v.rdfs_subclass,
        v.owl_thing,
        v.owl_nothing,
        v.owl_sameas,
        v.owl_inverseof,
        v.owl_symmetric,
        v.owl_irreflexive,
        v.owl_asymmetric,
        v.owl_transitive,
        v.owl_equivprop,
        v.owl_equivclass,
        v.owl_functional,
        v.owl_invfunctional,
        v.owl_intersection,
        v.owl_union,
        v.owl_hasvalue,
        v.owl_allvalues,
        v.owl_somevalues,
        v.owl_disjointwith,
        v.owl_onproperty,
        v.owl_complementof,
        v.owl_pdw,
        v.owl_class,
    ]
}

/// Each vocabulary identifier names its IRI in `terms`.
pub open spec fn vocab_named(terms: Seq<TermView>, v: Vocab) -> bool {
    forall|i: int|
        0 <= i < vocab_ids(v).len() ==> #[trigger] vocab_ids(v)[i] < terms.len() && terms[vocab_ids(v)[i] as int]
            == TermView::NamedNode(vocab_iris()[i])
}

/// Interns the named node `iri`.
fn intern(index: &mut URIIndex, iri: &str) -> (id: URI)
    requires
        old(index).wf(),
        old(index)@.len() < u32::MAX,
    ensures
        final(index).wf(),
        old(index)@.is_prefix_of(final(index)@),
        final(index)@.len() <= old(index)@.len() + 1,
        id < final(index)@.len(),
        final(index)@[id as int] == TermView::NamedNode(iri@),
{
    index.put(Term::NamedNode(String::from_str(iri)))
}

/// The vocabulary IRIs, as string slices.
fn vocab_strs() -> (r: Vec<&'static str>)
    ensures
        r@.len() == vocab_iris().len(),
        forall|i: int| 0 <= i < r@.len() ==> #[trigger] r@[i]@ == vocab_iris()[i],
{
    vec![
        "http://www.w3.org/1999/02/22-rdf-syntax-ns#type",
        "http://www.w3.org/1999/02/22-rdf-syntax-ns#first",
        "http://www.w3.org/1999/02/22-rdf-syntax-ns#rest",
        "http://www.w3.org/1999/02/22-rdf-syntax-ns#nil",
        "http://www.w3.org/2000/01/rdf-schema#domain",
        "http://www.w3.org/2000/01/rdf-schema#range",
        "http://www.w3.org/2000/01/rdf-schema#subPropertyOf",
        "http://www.w3.org/2000/01/rdf-schema#subClassOf",
        "http://www.w3.org/2002/07/owl#Thing",
        "http://www.w3.org/2002/07/owl#Nothing",
        "http://www.w3.org/2002/07/owl#sameAs",
        "http://www.w3.org/2002/07/owl#inverseOf",
        "http://www.w3.org/2002/07/owl#SymmetricProperty",
        "http://www.w3.org/2002/07/owl#IrreflexiveProperty",
        "http://www.w3.org/2002/07/owl#AsymmetricProperty",
        "http://www.w3.org/2002/07/owl#TransitiveProperty",
        "http://www.w3.org/2002/07/owl#equivalentProperty",
        "http://www.w3.org/2002/07/owl#equivalentClass",
        "http://www.w3.org/2002/07/owl#FunctionalProperty",
        "http://www.w3.org/2002/07/owl#InverseFunctionalProperty",
        "http://www.w3.org/2002/07/owl#intersectionOf",
        "http://www.w3.org/2002/07/owl#unionOf",
        "http://www.w3.org/2002/07/owl#hasValue",
        "http://www.w3.org/2002/07/owl#allValuesFrom",
        "http://www.w3.org/2002/07/owl#someValuesFrom",
        "http://www.w3.org/2002/07/owl#disjointWith",
        "http://www.w3.org/2002/07/owl#onProperty",
        "http://www.w3.org/2002/07/owl#complementOf",
        "http://www.w3.org/2002/07/owl#propertyDisjointWith",
        "http://www.w3.org/2002/07/owl#Class",
    ]
}

/// A new index holding the sentinel and the vocabulary, and the identifiers
/// of the vocabulary.
fn vocabulary() -> (r: (URIIndex, Vocab))
    ensures
        r.0.wf(),
        r.0@.len() <= 31,
        r.0@[0] == sentinel(),
        vocab_named(r.0@, r.1),
{
    let strs = vocab_strs();
    let mut index = URIIndex::new();
    let mut ids: Vec<URI> = Vec::new();
    let mut i: usize = 0;
    while i < strs.len()
        invariant
            strs@.len() == 30,
            forall|k: int| 0 <= k < strs@.len() ==> #[trigger] strs@[k]@ == vocab_iris()[k],
            0 <= i <= strs@.len(),
            index.wf(),
            1 <= index@.len() <= 1 + i,
            index@[0] == sentinel(),
            ids@.len() == i,
            forall|k: int|
                0 <= k < i ==> #[trigger] ids@[k] < index@.len() && index@[ids@[k] as int] == TermView::NamedNode(
                    strs@[k]@,
                ),
        decreases strs@.len() - i,
    {
        let ghost before = index@;
        let id = intern(&mut index, strs[i]);
        ids.push(id);
        proof {
            assert forall|k: int|
                0 <= k < i + 1 implies #[trigger] ids@[k] < index@.len() && index@[ids@[k] as int]
                    == TermView::NamedNode(strs@[k]@) by {
                if k < i {
                    assert(before[ids@[k] as int] == index@[ids@[k] as int]);
                }
            }
            assert(before[0] == index@[0]);
        }
        i += 1;
    }
    let v = Vocab {
        rdf_type: ids[0],
        rdf_first: ids[1],
        rdf_rest: ids[2],
        rdf_nil: ids[3],
        rdfs_domain: ids[4],
        rdfs_range: ids[5],
        rdfs_subprop: ids[6],
        rdfs_subclass: ids[7],
        owl_thing: ids[8],
        owl_nothing: ids[9],
        owl_sameas: ids[10],
        owl_inverseof: ids[11],
        owl_symmetric: ids[12],
        owl_irreflexive: ids[13],
        owl_asymmetric: ids[14],
        owl_transitive: ids[15],
        owl_equivprop: ids[16],
        owl_equivclass: ids[17],
        owl_functional: ids[18],
        owl_invfunctional: ids[19],
        owl_intersection: ids[20],
        owl_union: ids[21],
        owl_hasvalue: ids[22],
        owl_allvalues: ids[23],
        owl_somevalues: ids[24],
        owl_disjointwith: ids[25],
        owl_onproperty: ids[26],
        owl_complementof: ids[27],
        owl_pdw: ids[28],
        owl_class: ids[29],
    };
    proof {
        assert(vocab_ids(v) =~= ids@);
        assert forall|k: int| 0 <= k < vocab_ids(v).len() implies #[trigger] vocab_ids(v)[k] < index@.len()
            && index@[vocab_ids(v)[k] as int] == TermView::NamedNode(vocab_iris()[k]) by {
            assert(vocab_ids(v)[k] == ids@[k]);
        }
    }
    (index, v)
}

} // verus!

verus! {

/// The reasoning engine: the interned terms, the triples loaded so far (the
/// base), the triples to reason over (the base and what earlier rounds
/// inferred), the diagnostics, and the output of the last round.
pub struct Reasoner {
    index: URIIndex,
    vocab: Vocab,
    input: Vec<KeyedTriple>,
    base: Vec<KeyedTriple>,
    errors: Vec<ReasoningError>,
    options: ReasonerOptions,
    seen_diags: Vec<(String, String)>,
    output: Vec<Triple>,
    last_round: Vec<KeyedTriple>,
}

/// The identifiers of the triples are all interned.
pub open spec fn ids_interned(s: Seq<KeyedTriple>, n: int) -> bool {
    forall|i: int| 0 <= i < s.len() ==> (#[trigger] s[i]).0 < n && s[i].1.0 < n && s[i].1.1 < n
}

impl Reasoner {
    /// The interned terms, by identifier.
    pub closed spec fn terms(&self) -> Seq<TermView> {
        self.index@
    }

    /// The identifiers of the vocabulary.
    pub closed spec fn vocab(&self) -> Vocab {
        self.vocab
    }

    /// The triples that the next round reasons over.
    pub closed spec fn input(&self) -> Seq<KeyedTriple> {
        self.input@
    }

    /// The triples loaded so far.
    pub closed spec fn base(&self) -> Seq<KeyedTriple> {
        self.base@
    }

    /// The diagnostics collected so far.
    pub closed spec fn error_list(&self) -> Seq<ReasoningError> {
        self.errors@
    }

    /// The options in force.
    pub closed spec fn options(&self) -> ReasonerOptions {
        self.options
    }

    /// The (code, message) pairs already reported, for deduplication.
    pub closed spec fn seen(&self) -> Seq<(Seq<char>, Seq<char>)> {
        self.seen_diags@.map_values(|p: (String, String)| (p.0@, p.1@))
    }

    /// The triples of the last round's output.
    pub closed spec fn output(&self) -> Seq<Triple> {
        self.output@
    }

    /// The closure that the last round made, whose violations were
    /// reported then: empty before the first round and after `clear`.
    pub closed spec fn last_round(&self) -> Seq<KeyedTriple> {
        self.last_round@
    }

    /// The index is well formed, names the vocabulary, and interns every
    /// identifier of the input and the base.
    pub closed spec fn wf(&self) -> bool {
        &&& self.index.wf()
        &&& vocab_named(self.index@, self.vocab)
        &&& ids_interned(self.input@, self.index@.len() as int)
        &&& ids_interned(self.base@, self.index@.len() as int)
        &&& sorted_strict(self.last_round@)
    }

    /// A well-formed reasoner names each vocabulary IRI by its identifier,
    /// holds each term once with the sentinel at identifier 0, and interns
    /// every identifier of its input and base.
    pub proof fn lemma_wf(&self)
        requires
            self.wf(),
        ensures
            vocab_named(self.terms(), self.vocab()),
            forall|i: int, j: int|
                0 <= i < self.terms().len() && 0 <= j < self.terms().len() && i != j ==> self.terms()[i] != self.terms()[j],
            1 <= self.terms().len() <= u32::MAX,
            self.terms()[0] == sentinel(),
            ids_interned(self.input(), self.terms().len() as int),
            ids_interned(self.base(), self.terms().len() as int),
    {
        self.index.lemma_distinct();
    }

    /// A reasoner holding only `owl:Thing rdf:type owl:Class` and
    /// `owl:Nothing rdf:type owl:Class`, with the default options.
    pub fn new() -> (r: Reasoner)
        ensures
            r.wf(),
            vocab_named(r.terms(), r.vocab()),
            r.input() == seq![
                (r.vocab().owl_thing, (r.vocab().rdf_type, r.vocab().owl_class)),
                (r.vocab().owl_nothing, (r.vocab().rdf_type, r.vocab().owl_class)),
            ],
            r.base() == r.input(),
            r.error_list().len() == 0,
            r.seen().len() == 0,
            r.output().len() == 0,
            r.last_round().len() == 0,
            r.options().collect_diagnostics,
            r.options().max_diagnostics is None,
            r.options().dedupe,
            r.terms().len() <= 31,
    {
        let (index, vocab) = vocabulary();
        proof {
            assert(vocab_ids(vocab)[8] == vocab.owl_thing);
            assert(vocab_ids(vocab)[9] == vocab.owl_nothing);
            assert(vocab_ids(vocab)[0] == vocab.rdf_type);
            assert(vocab_ids(vocab)[29] == vocab.owl_class);
        }
        let mut input: Vec<KeyedTriple> = Vec::new();
        input.push((vocab.owl_thing, (vocab.rdf_type, vocab.owl_class)));
        input.push((vocab.owl_nothing, (vocab.rdf_type, vocab.owl_class)));
        let mut base: Vec<KeyedTriple> = Vec::new();
        base.push((vocab.owl_thing, (vocab.rdf_type, vocab.owl_class)));
        base.push((vocab.owl_nothing, (vocab.rdf_type, vocab.owl_class)));
        let r = Reasoner {
            index,
            vocab,
            input,
            base,
            errors: Vec::new(),
            options: ReasonerOptions::default(),
            seen_diags: Vec::new(),
            last_round: Vec::new(),
            output: Vec::new(),
        };
        proof {
            assert(r.seen() =~= Seq::<(Seq<char>, Seq<char>)>::empty());
            assert(r.input() =~= seq![
                (r.vocab().owl_thing, (r.vocab().rdf_type, r.vocab().owl_class)),
                (r.vocab().owl_nothing, (r.vocab().rdf_type, r.vocab().owl_class)),
            ]);
        }
        r
    }

    /// Forgets what earlier rounds inferred: the next round reasons over the
    /// loaded triples only.
    pub fn clear(&mut self)
        requires
            old(self).wf(),
        ensures
            final(self).wf(),
            final(self).input() == old(self).base(),
            final(self).base() == old(self).base(),
            final(self).terms() == old(self).terms(),
            final(self).vocab() == old(self).vocab(),
            final(self).error_list() == old(self).error_list(),
            final(self).seen() == old(self).seen(),
            final(self).options() == old(self).options(),
            final(self).output() == old(self).output(),
            final(self).last_round().len() == 0,
    {
        self.input = crate::rdf_lists::copy_triples(&self.base);
        self.last_round = Vec::new();
    }

    /// Replaces the options.
    pub fn set_options(&mut self, opts: ReasonerOptions)
        ensures
            final(self).options() == opts,
            final(self).terms() == old(self).terms(),
            final(self).vocab() == old(self).vocab(),
            final(self).input() == old(self).input(),
            final(self).base() == old(self).base(),
            final(self).error_list() == old(self).error_list(),
            final(self).seen() == old(self).seen(),
            final(self).output() == old(self).output(),
            final(self).last_round() == old(self).last_round(),
            old(self).wf() ==> final(self).wf(),
    {
        self.options = opts;
    }

    /// The diagnostics collected so far.
    pub fn errors(&self) -> (r: &[ReasoningError])
        ensures
            r@ == self.error_list(),
    {
        self.errors.as_slice()
    }

    /// The diagnostics collected so far (the same as `errors`).
    pub fn diagnostics(&self) -> (r: &[ReasoningError])
        ensures
            r@ == self.error_list(),
    {
        self.errors.as_slice()
    }

    /// The output of the last round.
    pub fn view_output(&self) -> (r: &[Triple])
        ensures
            r@ == self.output(),
    {
        self.output.as_slice()
    }

    /// A copy of the output of the last round.
    pub fn get_triples(&self) -> (r: Vec<Triple>)
        ensures
            r@.len() == self.output().len(),
            forall|i: int| 0 <= i < r@.len() ==> (#[trigger] r@[i])@ == self.output()[i]@,
    {
        let mut r: Vec<Triple> = Vec::with_capacity(self.output.len());
        let mut i: usize = 0;
        while i < self.output.len()
            invariant
                0 <= i <= self.output@.len(),
                r@.len() == i,
                forall|k: int| 0 <= k < i ==> (#[trigger] r@[k])@ == self.output@[k]@,
            decreases self.output@.len() - i,
        {
            r.push(self.output[i].duplicate());
            i += 1;
        }
        r
    }
}

} // verus!

verus! {

/// The triple of terms that the identifiers of `t` stand for, its object in
/// canonical form.
pub open spec fn triple_view_of(terms: Seq<TermView>, t: KeyedTriple) -> TripleView {
    TripleView {
        subject: terms[t.0 as int],
        predicate: terms[t.1.0 as int],
        object: crate::common::canonical(terms[t.1.1 as int]),
    }
}

/// `t` makes a well-formed triple of terms, and, where `nonzero`, none of its
/// identifiers is the reserved identifier 0.
pub open spec fn renders(terms: Seq<TermView>, t: KeyedTriple, nonzero: bool) -> bool {
    &&& (nonzero ==> t.0 > 0 && t.1.0 > 0 && t.1.1 > 0)
    &&& crate::common::valid_triple(terms[t.0 as int], terms[t.1.0 as int])
}

/// The triples of terms that `s` stands for, in order, leaving out those
/// that do not render.
pub open spec fn rendered(terms: Seq<TermView>, s: Seq<KeyedTriple>, nonzero: bool) -> Seq<TripleView>
    decreases s.len(),
{
    if s.len() == 0 {
        Seq::empty()
    } else {
        let rest = rendered(terms, s.drop_last(), nonzero);
        if renders(terms, s.last(), nonzero) {
            rest.push(triple_view_of(terms, s.last()))
        } else {
            rest
        }
    }
}

impl Reasoner {
    /// The triples of terms that the identifiers in `s` stand for, leaving
    /// out those that do not render.
    fn render(&self, s: &Vec<KeyedTriple>, nonzero: bool) -> (out: Vec<Triple>)
        requires
            self.wf(),
            ids_interned(s@, self.terms().len() as int),
        ensures
            out@.map_values(|t: Triple| t@) == rendered(self.terms(), s@, nonzero),
    {
        let mut out: Vec<Triple> = Vec::new();
        let mut i: usize = 0;
        while i < s.len()
            invariant
                self.wf(),
                ids_interned(s@, self.terms().len() as int),
                0 <= i <= s@.len(),
                out@.map_values(|t: Triple| t@) == rendered(self.terms(), s@.take(i as int), nonzero),
            decreases s@.len() - i,
        {
            let (a, (b, c)) = s[i];
            proof {
                assert(s@[i as int] == (a, (b, c)));
                assert(s@.take(i + 1).drop_last() =~= s@.take(i as int));
                assert(s@.take(i + 1).last() == (a, (b, c)));
            }
            let ghost before = out@;
            if !nonzero || (a > 0 && b > 0 && c > 0) {
                match (self.index.get(a), self.index.get(b), self.index.get(c)) {
                    (Some(ts), Some(tp), Some(to)) => {
                        match crate::common::make_triple(ts.duplicate(), tp.duplicate(), to.duplicate()) {
                            Ok(t) => {
                                out.push(t);
                                proof {
                                    assert(out@.map_values(|t: Triple| t@) =~= before.map_values(|t: Triple| t@).push(t@));
                                }
                            },
                            Err(_) => {},
                        }
                    },
                    _ => {},
                }
            }
            i += 1;
        }
        proof {
            assert(s@.take(s@.len() as int) =~= s@);
        }
        out
    }

    /// The loaded triples, as triples of terms.
    pub fn get_input(&self) -> (r: Vec<Triple>)
        requires
            self.wf(),
        ensures
            r@.map_values(|t: Triple| t@) == rendered(self.terms(), self.base(), false),
    {
        self.render(&self.base, false)
    }

    /// The output of the last round, each triple as the printed forms of its
    /// subject, predicate and object.
    pub fn get_triples_string(&self) -> (r: Vec<(String, String, String)>)
        ensures
            r@.len() == self.output().len(),
            forall|i: int|
                0 <= i < r@.len() ==> (#[trigger] r@[i]).0@ == crate::common::term_display(self.output()[i]@.subject)
                    && r@[i].1@ == crate::common::term_display(self.output()[i]@.predicate) && r@[i].2@
                    == crate::common::term_display(self.output()[i]@.object),
    {
        let mut r: Vec<(String, String, String)> = Vec::with_capacity(self.output.len());
        let mut i: usize = 0;
        while i < self.output.len()
            invariant
                0 <= i <= self.output@.len(),
                r@.len() == i,
                forall|k: int|
                    0 <= k < i ==> (#[trigger] r@[k]).0@ == crate::common::term_display(self.output@[k]@.subject)
                        && r@[k].1@ == crate::common::term_display(self.output@[k]@.predicate) && r@[k].2@
                        == crate::common::term_display(self.output@[k]@.object),
            decreases self.output@.len() - i,
        {
            let t = &self.output[i];
            r.push((t.subject.to_string(), t.predicate.to_string(), t.object.to_string()));
            i += 1;
        }
        r
    }
}

} // verus!

verus! {

/// The diagnostics and the reported (code, message) pairs after one report
/// of `rule` with `message`: nothing is collected when collection is off; a
/// pair already seen is dropped when deduplicating; otherwise the pair is
/// remembered (when deduplicating) and the diagnostic is kept unless the
/// maximum number is reached.
pub open spec fn add_report(
    opts: ReasonerOptions,
    errors: Seq<ReasoningErrorView>,
    seen: Seq<(Seq<char>, Seq<char>)>,
    rule: Seq<char>,
    message: Seq<char>,
) -> (Seq<ReasoningErrorView>, Seq<(Seq<char>, Seq<char>)>) {
    let e = crate::diagnostics::new_error_view(rule, message);
    let key = (e.code, e.message);
    if !opts.collect_diagnostics {
        (errors, seen)
    } else if opts.dedupe && seen.contains(key) {
        (errors, seen)
    } else {
        let seen2 = if opts.dedupe { seen.push(key) } else { seen };
        match opts.max_diagnostics {
            Some(n) => if errors.len() >= n {
                (errors, seen2)
            } else {
                (errors.push(e), seen2)
            },
            None => (errors.push(e), seen2),
        }
    }
}

/// The diagnostics and reported pairs after a sequence of reports, in order.
pub open spec fn add_reports(
    opts: ReasonerOptions,
    errors: Seq<ReasoningErrorView>,
    seen: Seq<(Seq<char>, Seq<char>)>,
    reports: Seq<(Seq<char>, Seq<char>)>,
) -> (Seq<ReasoningErrorView>, Seq<(Seq<char>, Seq<char>)>)
    decreases reports.len(),
{
    if reports.len() == 0 {
        (errors, seen)
    } else {
        let (e, s) = add_reports(opts, errors, seen, reports.drop_last());
        add_report(opts, e, s, reports.last().0, reports.last().1)
    }
}

/// The views of a list of diagnostics.
pub open spec fn error_views(errors: Seq<ReasoningError>) -> Seq<ReasoningErrorView> {
    errors.map_values(|e: ReasoningError| e@)
}

fn string_pair_eq(a: &(String, String), code: &String, message: &String) -> (r: bool)
    ensures
        r == ((a.0@, a.1@) == (code@, message@)),
{
    a.0 == *code && a.1 == *message
}

impl Reasoner {
    /// Records a diagnostic for `rule` with `message`, as the options say.
    fn add_error(&mut self, rule: String, message: String)
        requires
            old(self).wf(),
        ensures
            final(self).wf(),
            (error_views(final(self).error_list()), final(self).seen()) == add_report(
                old(self).options(),
                error_views(old(self).error_list()),
                old(self).seen(),
                rule@,
                message@,
            ),
            final(self).terms() == old(self).terms(),
            final(self).vocab() == old(self).vocab(),
            final(self).input() == old(self).input(),
            final(self).base() == old(self).base(),
            final(self).options() == old(self).options(),
            final(self).output() == old(self).output(),
    {
        if !self.options.collect_diagnostics {
            return;
        }
        let error = ReasoningError::new(rule, message);
        if self.options.dedupe {
            let code = String::from_str(error.code());
            let msg = String::from_str(error.message());
            let mut i: usize = 0;
            while i < self.seen_diags.len()
                invariant
                    *self == *old(self),
                    self.wf(),
                    self.options.collect_diagnostics && self.options.dedupe,
                    error@ == crate::diagnostics::new_error_view(rule@, message@),
                    code@ == error@.code,
                    msg@ == error@.message,
                    0 <= i <= self.seen_diags@.len(),
                    forall|k: int| 0 <= k < i ==> (#[trigger] self.seen_diags@[k].0@, self.seen_diags@[k].1@) != (code@, msg@),
                decreases self.seen_diags@.len() - i,
            {
                if string_pair_eq(&self.seen_diags[i], &code, &msg) {
                    proof {
                        assert(self.seen()[i as int] == (code@, msg@));
                    }
                    return;
                }
                i += 1;
            }
            proof {
                assert(!self.seen().contains((code@, msg@))) by {
                    if self.seen().contains((code@, msg@)) {
                        let k = choose|k: int| 0 <= k < self.seen().len() && self.seen()[k] == (code@, msg@);
                        assert(self.seen_diags@[k].0@ == code@);
                    }
                }
            }
            let ghost before = self.seen_diags@;
            self.seen_diags.push((code, msg));
            proof {
                assert(self.seen() =~= before.map_values(|p: (String, String)| (p.0@, p.1@)).push((error@.code, error@.message)));
            }
        }
        match self.options.max_diagnostics {
            Some(max) => {
                if self.errors.len() >= max {
                    return;
                }
            },
            None => {},
        }
        let ghost before = self.errors@;
        self.errors.push(error);
        proof {
            assert(error_views(self.errors@) =~= error_views(before).push(error@));
        }
    }
}

} // verus!

verus! {

/// The printed form of the term with identifier `u`, or `<unknown>`.
pub open spec fn display_of(terms: Seq<TermView>, u: URI) -> Seq<char> {
    if u < terms.len() {
        crate::common::term_display(terms[u as int])
    } else {
        "<unknown>"@
    }
}

pub open spec fn cax_dw_message(terms: Seq<TermView>, x: URI, c1: URI, c2: URI) -> Seq<char> {
    "inst "@ + display_of(terms, x) + " is both "@ + display_of(terms, c1) + " and "@ + display_of(terms, c2)
        + " (disjoint classes)"@
}

pub open spec fn prp_irp_message(terms: Seq<TermView>, p: URI, x: URI) -> Seq<char> {
    "property "@ + display_of(terms, p) + " of "@ + display_of(terms, x) + " is irreflexive"@
}

pub open spec fn prp_asyp_message(terms: Seq<TermView>, p: URI, x: URI, y: URI) -> Seq<char> {
    "property "@ + display_of(terms, p) + " of "@ + display_of(terms, x) + " and "@ + display_of(terms, y)
        + " is asymmetric"@
}

pub open spec fn prp_pdw_message(terms: Seq<TermView>, x: URI, y: URI, p1: URI, p2: URI) -> Seq<char> {
    "property "@ + display_of(terms, p1) + " is disjoint with "@ + display_of(terms, p2) + " for pair ("@
        + display_of(terms, x) + " "@ + display_of(terms, p1) + " "@ + display_of(terms, y) + ")"@
}

pub open spec fn cls_nothing2_message(terms: Seq<TermView>, x: URI) -> Seq<char> {
    "instance "@ + display_of(terms, x) + " is owl:Nothing (unsatisfiable)"@
}

/// `r` reports a violation in `S`: a rule name and its message.
pub open spec fn violation_report(v: Vocab, terms: Seq<TermView>, S: Set<KeyedTriple>, r: (Seq<char>, Seq<char>)) -> bool {
    ||| exists|x: URI, c1: URI, c2: URI|
        #[trigger] crate::violations::cax_dw(v, S, x, c1, c2) && r == ("cax-dw"@, cax_dw_message(terms, x, c1, c2))
    ||| exists|p: URI, x: URI|
        #[trigger] crate::violations::prp_irp(v, S, p, x) && r == ("prp-irp"@, prp_irp_message(terms, p, x))
    ||| exists|p: URI, x: URI, y: URI|
        #[trigger] crate::violations::prp_asyp(v, S, p, x, y) && r == ("prp-asyp"@, prp_asyp_message(terms, p, x, y))
    ||| exists|x: URI, y: URI, p1: URI, p2: URI|
        #[trigger] crate::violations::prp_pdw(v, S, x, y, p1, p2) && r == (
            "prp-pdw"@,
            prp_pdw_message(terms, x, y, p1, p2),
        )
    ||| exists|x: URI|
        #[trigger] crate::violations::cls_nothing2(v, S, x) && r == ("cls-nothing2"@, cls_nothing2_message(terms, x))
}

/// `reports` reports every violation in `S`, and nothing else.
pub open spec fn reports_of(v: Vocab, terms: Seq<TermView>, S: Set<KeyedTriple>, reports: Seq<(Seq<char>, Seq<char>)>) -> bool {
    &&& forall|i: int| 0 <= i < reports.len() ==> violation_report(v, terms, S, #[trigger] reports[i])
    &&& forall|x: URI, c1: URI, c2: URI|
        #[trigger] crate::violations::cax_dw(v, S, x, c1, c2) ==> reports.contains(
            ("cax-dw"@, cax_dw_message(terms, x, c1, c2)),
        )
    &&& forall|p: URI, x: URI|
        #[trigger] crate::violations::prp_irp(v, S, p, x) ==> reports.contains(("prp-irp"@, prp_irp_message(terms, p, x)))
    &&& forall|p: URI, x: URI, y: URI|
        #[trigger] crate::violations::prp_asyp(v, S, p, x, y) ==> reports.contains(
            ("prp-asyp"@, prp_asyp_message(terms, p, x, y)),
        )
    &&& forall|x: URI, y: URI, p1: URI, p2: URI|
        #[trigger] crate::violations::prp_pdw(v, S, x, y, p1, p2) ==> reports.contains(
            ("prp-pdw"@, prp_pdw_message(terms, x, y, p1, p2)),
        )
    &&& forall|x: URI|
        #[trigger] crate::violations::cls_nothing2(v, S, x) ==> reports.contains(
            ("cls-nothing2"@, cls_nothing2_message(terms, x)),
        )
}

/// The views of a list of reports.
pub open spec fn report_views(r: Seq<(String, String)>) -> Seq<(Seq<char>, Seq<char>)> {
    r.map_values(|p: (String, String)| (p.0@, p.1@))
}

/// The reports that are new against `S`: those that report no violation of
/// `S`, in their order.
pub open spec fn fresh_reports(
    v: Vocab,
    terms: Seq<TermView>,
    S: Set<KeyedTriple>,
    reports: Seq<(Seq<char>, Seq<char>)>,
) -> Seq<(Seq<char>, Seq<char>)> {
    reports.filter(|q: (Seq<char>, Seq<char>)| !violation_report(v, terms, S, q))
}

/// A list that reports every violation of `S` and nothing else holds
/// exactly the violation reports of `S`.
pub proof fn lemma_reports_of_contains(
    v: Vocab,
    terms: Seq<TermView>,
    S: Set<KeyedTriple>,
    reports: Seq<(Seq<char>, Seq<char>)>,
    q: (Seq<char>, Seq<char>),
)
    requires
        reports_of(v, terms, S, reports),
    ensures
        reports.contains(q) <==> violation_report(v, terms, S, q),
{
    if reports.contains(q) {
        let k = choose|k: int| 0 <= k < reports.len() && reports[k] == q;
        assert(violation_report(v, terms, S, reports[k]));
    }
    if violation_report(v, terms, S, q) {
        if exists|x: URI, c1: URI, c2: URI|
            #[trigger] cax_dw(v, S, x, c1, c2) && q == ("cax-dw"@, cax_dw_message(terms, x, c1, c2)) {
            let (x, c1, c2) = choose|x: URI, c1: URI, c2: URI|
                #[trigger] cax_dw(v, S, x, c1, c2) && q == ("cax-dw"@, cax_dw_message(terms, x, c1, c2));
            assert(reports.contains(("cax-dw"@, cax_dw_message(terms, x, c1, c2))));
        } else if exists|p: URI, x: URI| #[trigger] prp_irp(v, S, p, x) && q == ("prp-irp"@, prp_irp_message(terms, p, x)) {
            let (p, x) = choose|p: URI, x: URI| #[trigger] prp_irp(v, S, p, x) && q == ("prp-irp"@, prp_irp_message(terms, p, x));
            assert(reports.contains(("prp-irp"@, prp_irp_message(terms, p, x))));
        } else if exists|p: URI, x: URI, y: URI|
            #[trigger] prp_asyp(v, S, p, x, y) && q == ("prp-asyp"@, prp_asyp_message(terms, p, x, y)) {
            let (p, x, y) = choose|p: URI, x: URI, y: URI|
                #[trigger] prp_asyp(v, S, p, x, y) && q == ("prp-asyp"@, prp_asyp_message(terms, p, x, y));
            assert(reports.contains(("prp-asyp"@, prp_asyp_message(terms, p, x, y))));
        } else if exists|x: URI, y: URI, p1: URI, p2: URI|
            #[trigger] prp_pdw(v, S, x, y, p1, p2) && q == ("prp-pdw"@, prp_pdw_message(terms, x, y, p1, p2)) {
            let (x, y, p1, p2) = choose|x: URI, y: URI, p1: URI, p2: URI|
                #[trigger] prp_pdw(v, S, x, y, p1, p2) && q == ("prp-pdw"@, prp_pdw_message(terms, x, y, p1, p2));
            assert(reports.contains(("prp-pdw"@, prp_pdw_message(terms, x, y, p1, p2))));
        } else {
            let x = choose|x: URI| #[trigger] cls_nothing2(v, S, x) && q == ("cls-nothing2"@, cls_nothing2_message(terms, x));
            assert(reports.contains(("cls-nothing2"@, cls_nothing2_message(terms, x))));
        }
    }
}

/// The reports of `reports` that `known` does not hold, in order.
fn unknown_reports(reports: &Vec<(String, String)>, known: &Vec<(String, String)>) -> (r: Vec<(String, String)>)
    ensures
        report_views(r@) == report_views(reports@).filter(
            |q: (Seq<char>, Seq<char>)| !report_views(known@).contains(q),
        ),
{
    let ghost kv = report_views(known@);
    let ghost rv = report_views(reports@);
    let ghost pred = |q: (Seq<char>, Seq<char>)| !kv.contains(q);
    let mut out: Vec<(String, String)> = Vec::new();
    let mut j: usize = 0;
    while j < reports.len()
        invariant
            0 <= j <= reports@.len(),
            kv == report_views(known@),
            rv == report_views(reports@),
            pred == (|q: (Seq<char>, Seq<char>)| !kv.contains(q)),
            report_views(out@) == rv.take(j as int).filter(pred),
        decreases reports@.len() - j,
    {
        let mut found = false;
        let mut i: usize = 0;
        while i < known.len()
            invariant
                0 <= i <= known@.len(),
                j < reports@.len(),
                kv == report_views(known@),
                rv == report_views(reports@),
                found <==> exists|k: int| 0 <= k < i && kv[k] == rv[j as int],
            decreases known@.len() - i,
        {
            if crate::diagnostics::str_eq(known[i].0.as_str(), reports[j].0.as_str())
                && crate::diagnostics::str_eq(known[i].1.as_str(), reports[j].1.as_str()) {
                found = true;
            }
            proof {
                assert(kv[i as int] == (known@[i as int].0@, known@[i as int].1@));
                assert(rv[j as int] == (reports@[j as int].0@, reports@[j as int].1@));
                if found {
                    let k = choose|k: int| 0 <= k < i + 1 && kv[k] == rv[j as int];
                }
            }
            i += 1;
        }
        proof {
            assert(found <==> kv.contains(rv[j as int]));
        }
        let ghost before = out@;
        if !found {
            out.push((reports[j].0.clone(), reports[j].1.clone()));
        }
        proof {
            let t1 = rv.take(j + 1);
            assert(t1.drop_last() =~= rv.take(j as int));
            assert(t1.last() == rv[j as int]);
            reveal_with_fuel(Seq::<_>::filter, 1);
            assert(rv[j as int] == (reports@[j as int].0@, reports@[j as int].1@));
            if !found {
                assert(report_views(out@) =~= report_views(before).push(rv[j as int]));
            } else {
                assert(report_views(out@) =~= report_views(before));
            }
            assert(report_views(out@) == t1.filter(pred));
        }
        j += 1;
    }
    proof {
        assert(rv.take(reports@.len() as int) =~= rv);
    }
    out
}

} // verus!

verus! {

impl Reasoner {
    /// The printed form of the term with identifier `u`, or `<unknown>`.
    fn to_u(&self, u: URI) -> (s: String)
        ensures
            s@ == display_of(self.terms(), u),
    {
        match self.index.get(u) {
            Some(t) => t.to_string(),
            None => String::from_str("<unknown>"),
        }
    }

    fn cax_dw_msg(&self, x: URI, c1: URI, c2: URI) -> (s: String)
        ensures
            s@ == cax_dw_message(self.terms(), x, c1, c2),
    {
        let mut s = String::from_str("inst ");
        s.append(self.to_u(x).as_str());
        s.append(" is both ");
        s.append(self.to_u(c1).as_str());
        s.append(" and ");
        s.append(self.to_u(c2).as_str());
        s.append(" (disjoint classes)");
        s
    }

    fn prp_irp_msg(&self, p: URI, x: URI) -> (s: String)
        ensures
            s@ == prp_irp_message(self.terms(), p, x),
    {
        let mut s = String::from_str("property ");
        s.append(self.to_u(p).as_str());
        s.append(" of ");
        s.append(self.to_u(x).as_str());
        s.append(" is irreflexive");
        s
    }

    fn prp_asyp_msg(&self, p: URI, x: URI, y: URI) -> (s: String)
        ensures
            s@ == prp_asyp_message(self.terms(), p, x, y),
    {
        let mut s = String::from_str("property ");
        s.append(self.to_u(p).as_str());
        s.append(" of ");
        s.append(self.to_u(x).as_str());
        s.append(" and ");
        s.append(self.to_u(y).as_str());
        s.append(" is asymmetric");
        s
    }

    fn prp_pdw_msg(&self, x: URI, y: URI, p1: URI, p2: URI) -> (s: String)
        ensures
            s@ == prp_pdw_message(self.terms(), x, y, p1, p2),
    {
        let mut s = String::from_str("property ");
        s.append(self.to_u(p1).as_str());
        s.append(" is disjoint with ");
        s.append(self.to_u(p2).as_str());
        s.append(" for pair (");
        s.append(self.to_u(x).as_str());
        s.append(" ");
        s.append(self.to_u(p1).as_str());
        s.append(" ");
        s.append(self.to_u(y).as_str());
        s.append(")");
        s
    }

    fn cls_nothing2_msg(&self, x: URI) -> (s: String)
        ensures
            s@ == cls_nothing2_message(self.terms(), x),
    {
        let mut s = String::from_str("instance ");
        s.append(self.to_u(x).as_str());
        s.append(" is owl:Nothing (unsatisfiable)");
        s
    }
}

} // verus!

verus! {

impl Reasoner {
    fn report_cax_dw(&self, s: &Vec<KeyedTriple>, out: &mut Vec<(String, String)>)
        requires
            sorted_strict(s@),
        ensures
            report_views(old(out)@).is_prefix_of(report_views(final(out)@)),
            forall|i: int|
                old(out)@.len() <= i < final(out)@.len() ==> violation_report(
                    self.vocab(),
                    self.terms(),
                    s@.to_set(),
                    #[trigger] report_views(final(out)@)[i],
                ),
            forall|x: URI, c1: URI, c2: URI|
                #[trigger] cax_dw(self.vocab(), s@.to_set(), x, c1, c2) ==> report_views(final(out)@).contains(
                    ("cax-dw"@, cax_dw_message(self.terms(), x, c1, c2)),
                ),
    {
        let ghost S = s@.to_set();
        let vs = find_cax_dw(&self.vocab, s);
        let ghost start = report_views(out@);
        let mut i: usize = 0;
        while i < vs.len()
            invariant
                S == s@.to_set(),
                0 <= i <= vs@.len(),
                forall|x: URI, c1: URI, c2: URI| #[trigger] vs@.contains((x, (c1, c2))) <==> cax_dw(self.vocab(), S, x, c1, c2),
                start == report_views(old(out)@),
                start.is_prefix_of(report_views(out@)),
                forall|k: int|
                    start.len() <= k < out@.len() ==> violation_report(self.vocab(), self.terms(), S, #[trigger] report_views(out@)[k]),
                forall|j: int|
                    0 <= j < i ==> report_views(out@).contains(
                        ("cax-dw"@, cax_dw_message(self.terms(), (#[trigger] vs@[j]).0, vs@[j].1.0, vs@[j].1.1)),
                    ),
            decreases vs@.len() - i,
        {
            let (x, (c1, c2)) = vs[i];
            let ghost before = report_views(out@);
            out.push((String::from_str("cax-dw"), self.cax_dw_msg(x, c1, c2)));
            proof {
                let r = ("cax-dw"@, cax_dw_message(self.terms(), x, c1, c2));
                assert(report_views(out@) =~= before.push(r));
                assert(vs@.contains((x, (c1, c2))));
                assert(vs@[i as int] == (x, (c1, c2)));
                assert(cax_dw(self.vocab(), S, x, c1, c2));
                assert(violation_report(self.vocab(), self.terms(), S, r));
                assert forall|k: int| 0 <= k < start.len() implies #[trigger] report_views(out@)[k] == start[k] by {
                    assert(before[k] == start[k]);
                }
                assert forall|k: int|
                    start.len() <= k < out@.len() implies violation_report(self.vocab(), self.terms(), S, #[trigger] report_views(out@)[k]) by {
                    if k < before.len() {
                        assert(report_views(out@)[k] == before[k]);
                    }
                }
                assert forall|j: int| 0 <= j < i + 1 implies report_views(out@).contains(
                    ("cax-dw"@, cax_dw_message(self.terms(), (#[trigger] vs@[j]).0, vs@[j].1.0, vs@[j].1.1)),
                ) by {
                    if j < i {
                        let w = ("cax-dw"@, cax_dw_message(self.terms(), vs@[j].0, vs@[j].1.0, vs@[j].1.1));
                        let q = choose|q: int| 0 <= q < before.len() && before[q] == w;
                        assert(report_views(out@)[q] == w);
                    } else {
                        assert(report_views(out@)[before.len() as int] == r);
                    }
                }
            }
            i += 1;
        }
        proof {
            assert forall|x: URI, c1: URI, c2: URI|
                #[trigger] cax_dw(self.vocab(), S, x, c1, c2) implies report_views(out@).contains(
                    ("cax-dw"@, cax_dw_message(self.terms(), x, c1, c2)),
                ) by {
                assert(vs@.contains((x, (c1, c2))));
                let j = choose|j: int| 0 <= j < vs@.len() && vs@[j] == (x, (c1, c2));
            }
        }
    }
}

} // verus!

verus! {

impl Reasoner {
    fn report_prp_irp(&self, s: &Vec<KeyedTriple>, out: &mut Vec<(String, String)>)
        requires
            sorted_strict(s@),
        ensures
            report_views(old(out)@).is_prefix_of(report_views(final(out)@)),
            forall|i: int|
                old(out)@.len() <= i < final(out)@.len() ==> violation_report(
                    self.vocab(),
                    self.terms(),
                    s@.to_set(),
                    #[trigger] report_views(final(out)@)[i],
                ),
            forall|p: URI, x: URI|
                #[trigger] prp_irp(self.vocab(), s@.to_set(), p, x) ==> report_views(final(out)@).contains(
                    ("prp-irp"@, prp_irp_message(self.terms(), p, x)),
                ),
    {
        let ghost S = s@.to_set();
        let vs = find_prp_irp(&self.vocab, s);
        let ghost start = report_views(out@);
        let mut i: usize = 0;
        while i < vs.len()
            invariant
                S == s@.to_set(),
                0 <= i <= vs@.len(),
                forall|p: URI, x: URI| #[trigger] vs@.contains((p, x)) <==> prp_irp(self.vocab(), S, p, x),
                start == report_views(old(out)@),
                start.is_prefix_of(report_views(out@)),
                forall|k: int|
                    start.len() <= k < out@.len() ==> violation_report(self.vocab(), self.terms(), S, #[trigger] report_views(out@)[k]),
                forall|j: int|
                    0 <= j < i ==> report_views(out@).contains(
                        ("prp-irp"@, prp_irp_message(self.terms(), (#[trigger] vs@[j]).0, vs@[j].1)),
                    ),
            decreases vs@.len() - i,
        {
            let (p, x) = vs[i];
            let ghost before = report_views(out@);
            out.push((String::from_str("prp-irp"), self.prp_irp_msg(p, x)));
            proof {
                let r = ("prp-irp"@, prp_irp_message(self.terms(), p, x));
                assert(report_views(out@) =~= before.push(r));
                assert(vs@.contains((p, x)));
                assert(vs@[i as int] == (p, x));
                assert(prp_irp(self.vocab(), S, p, x));
                assert(violation_report(self.vocab(), self.terms(), S, r));
                assert forall|k: int| 0 <= k < start.len() implies #[trigger] report_views(out@)[k] == start[k] by {
                    assert(before[k] == start[k]);
                }
                assert forall|k: int|
                    start.len() <= k < out@.len() implies violation_report(self.vocab(), self.terms(), S, #[trigger] report_views(out@)[k]) by {
                    if k < before.len() {
                        assert(report_views(out@)[k] == before[k]);
                    }
                }
                assert forall|j: int| 0 <= j < i + 1 implies report_views(out@).contains(
                    ("prp-irp"@, prp_irp_message(self.terms(), (#[trigger] vs@[j]).0, vs@[j].1)),
                ) by {
                    if j < i {
                        let w = ("prp-irp"@, prp_irp_message(self.terms(), vs@[j].0, vs@[j].1));
                        let q = choose|q: int| 0 <= q < before.len() && before[q] == w;
                        assert(report_views(out@)[q] == w);
                    } else {
                        assert(report_views(out@)[before.len() as int] == r);
                    }
                }
            }
            i += 1;
        }
        proof {
            assert forall|p: URI, x: URI|
                #[trigger] prp_irp(self.vocab(), S, p, x) implies report_views(out@).contains(
                    ("prp-irp"@, prp_irp_message(self.terms(), p, x)),
                ) by {
                assert(vs@.contains((p, x)));
                let j = choose|j: int| 0 <= j < vs@.len() && vs@[j] == (p, x);
            }
        }
    }

    fn report_prp_asyp(&self, s: &Vec<KeyedTriple>, out: &mut Vec<(String, String)>)
        requires
            sorted_strict(s@),
        ensures
            report_views(old(out)@).is_prefix_of(report_views(final(out)@)),
            forall|i: int|
                old(out)@.len() <= i < final(out)@.len() ==> violation_report(
                    self.vocab(),
                    self.terms(),
                    s@.to_set(),
                    #[trigger] report_views(final(out)@)[i],
                ),
            forall|p: URI, x: URI, y: URI|
                #[trigger] prp_asyp(self.vocab(), s@.to_set(), p, x, y) ==> report_views(final(out)@).contains(
                    ("prp-asyp"@, prp_asyp_message(self.terms(), p, x, y)),
                ),
    {
        let ghost S = s@.to_set();
        let vs = find_prp_asyp(&self.vocab, s);
        let ghost start = report_views(out@);
        let mut i: usize = 0;
        while i < vs.len()
            invariant
                S == s@.to_set(),
                0 <= i <= vs@.len(),
                forall|p: URI, x: URI, y: URI| #[trigger] vs@.contains((p, (x, y))) <==> prp_asyp(self.vocab(), S, p, x, y),
                start == report_views(old(out)@),
                start.is_prefix_of(report_views(out@)),
                forall|k: int|
                    start.len() <= k < out@.len() ==> violation_report(self.vocab(), self.terms(), S, #[trigger] report_views(out@)[k]),
                forall|j: int|
                    0 <= j < i ==> report_views(out@).contains(
                        ("prp-asyp"@, prp_asyp_message(self.terms(), (#[trigger] vs@[j]).0, vs@[j].1.0, vs@[j].1.1)),
                    ),
            decreases vs@.len() - i,
        {
            let (p, (x, y)) = vs[i];
            let ghost before = report_views(out@);
            out.push((String::from_str("prp-asyp"), self.prp_asyp_msg(p, x, y)));
            proof {
                let r = ("prp-asyp"@, prp_asyp_message(self.terms(), p, x, y));
                assert(report_views(out@) =~= before.push(r));
                assert(vs@.contains((p, (x, y))));
                assert(vs@[i as int] == (p, (x, y)));
                assert(prp_asyp(self.vocab(), S, p, x, y));
                assert(violation_report(self.vocab(), self.terms(), S, r));
                assert forall|k: int| 0 <= k < start.len() implies #[trigger] report_views(out@)[k] == start[k] by {
                    assert(before[k] == start[k]);
                }
                assert forall|k: int|
                    start.len() <= k < out@.len() implies violation_report(self.vocab(), self.terms(), S, #[trigger] report_views(out@)[k]) by {
                    if k < before.len() {
                        assert(report_views(out@)[k] == before[k]);
                    }
                }
                assert forall|j: int| 0 <= j < i + 1 implies report_views(out@).contains(
                    ("prp-asyp"@, prp_asyp_message(self.terms(), (#[trigger] vs@[j]).0, vs@[j].1.0, vs@[j].1.1)),
                ) by {
                    if j < i {
                        let w = ("prp-asyp"@, prp_asyp_message(self.terms(), vs@[j].0, vs@[j].1.0, vs@[j].1.1));
                        let q = choose|q: int| 0 <= q < before.len() && before[q] == w;
                        assert(report_views(out@)[q] == w);
                    } else {
                        assert(report_views(out@)[before.len() as int] == r);
                    }
                }
            }
            i += 1;
        }
        proof {
            assert forall|p: URI, x: URI, y: URI|
                #[trigger] prp_asyp(self.vocab(), S, p, x, y) implies report_views(out@).contains(
                    ("prp-asyp"@, prp_asyp_message(self.terms(), p, x, y)),
                ) by {
                assert(vs@.contains((p, (x, y))));
                let j = choose|j: int| 0 <= j < vs@.len() && vs@[j] == (p, (x, y));
            }
        }
    }

    fn report_prp_pdw(&self, s: &Vec<KeyedTriple>, out: &mut Vec<(String, String)>)
        requires
            sorted_strict(s@),
        ensures
            report_views(old(out)@).is_prefix_of(report_views(final(out)@)),
            forall|i: int|
                old(out)@.len() <= i < final(out)@.len() ==> violation_report(
                    self.vocab(),
                    self.terms(),
                    s@.to_set(),
                    #[trigger] report_views(final(out)@)[i],
                ),
            forall|x: URI, y: URI, p1: URI, p2: URI|
                #[trigger] prp_pdw(self.vocab(), s@.to_set(), x, y, p1, p2) ==> report_views(final(out)@).contains(
                    ("prp-pdw"@, prp_pdw_message(self.terms(), x, y, p1, p2)),
                ),
    {
        let ghost S = s@.to_set();
        let vs = find_prp_pdw(&self.vocab, s);
        let ghost start = report_views(out@);
        let mut i: usize = 0;
        while i < vs.len()
            invariant
                S == s@.to_set(),
                0 <= i <= vs@.len(),
                forall|x: URI, y: URI, p1: URI, p2: URI| #[trigger] vs@.contains(((x, y), (p1, p2))) <==> prp_pdw(self.vocab(), S, x, y, p1, p2),
                start == report_views(old(out)@),
                start.is_prefix_of(report_views(out@)),
                forall|k: int|
                    start.len() <= k < out@.len() ==> violation_report(self.vocab(), self.terms(), S, #[trigger] report_views(out@)[k]),
                forall|j: int|
                    0 <= j < i ==> report_views(out@).contains(
                        ("prp-pdw"@, prp_pdw_message(self.terms(), (#[trigger] vs@[j]).0.0, vs@[j].0.1, vs@[j].1.0, vs@[j].1.1)),
                    ),
            decreases vs@.len() - i,
        {
            let ((x, y), (p1, p2)) = vs[i];
            let ghost before = report_views(out@);
            out.push((String::from_str("prp-pdw"), self.prp_pdw_msg(x, y, p1, p2)));
            proof {
                let r = ("prp-pdw"@, prp_pdw_message(self.terms(), x, y, p1, p2));
                assert(report_views(out@) =~= before.push(r));
                assert(vs@.contains(((x, y), (p1, p2))));
                assert(vs@[i as int] == ((x, y), (p1, p2)));
                assert(prp_pdw(self.vocab(), S, x, y, p1, p2));
                assert(violation_report(self.vocab(), self.terms(), S, r));
                assert forall|k: int| 0 <= k < start.len() implies #[trigger] report_views(out@)[k] == start[k] by {
                    assert(before[k] == start[k]);
                }
                assert forall|k: int|
                    start.len() <= k < out@.len() implies violation_report(self.vocab(), self.terms(), S, #[trigger] report_views(out@)[k]) by {
                    if k < before.len() {
                        assert(report_views(out@)[k] == before[k]);
                    }
                }
                assert forall|j: int| 0 <= j < i + 1 implies report_views(out@).contains(
                    ("prp-pdw"@, prp_pdw_message(self.terms(), (#[trigger] vs@[j]).0.0, vs@[j].0.1, vs@[j].1.0, vs@[j].1.1)),
                ) by {
                    if j < i {
                        let w = ("prp-pdw"@, prp_pdw_message(self.terms(), vs@[j].0.0, vs@[j].0.1, vs@[j].1.0, vs@[j].1.1));
                        let q = choose|q: int| 0 <= q < before.len() && before[q] == w;
                        assert(report_views(out@)[q] == w);
                    } else {
                        assert(report_views(out@)[before.len() as int] == r);
                    }
                }
            }
            i += 1;
        }
        proof {
            assert forall|x: URI, y: URI, p1: URI, p2: URI|
                #[trigger] prp_pdw(self.vocab(), S, x, y, p1, p2) implies report_views(out@).contains(
                    ("prp-pdw"@, prp_pdw_message(self.terms(), x, y, p1, p2)),
                ) by {
                assert(vs@.contains(((x, y), (p1, p2))));
                let j = choose|j: int| 0 <= j < vs@.len() && vs@[j] == ((x, y), (p1, p2));
            }
        }
    }

    fn report_cls_nothing2(&self, s: &Vec<KeyedTriple>, out: &mut Vec<(String, String)>)
        ensures
            report_views(old(out)@).is_prefix_of(report_views(final(out)@)),
            forall|i: int|
                old(out)@.len() <= i < final(out)@.len() ==> violation_report(
                    self.vocab(),
                    self.terms(),
                    s@.to_set(),
                    #[trigger] report_views(final(out)@)[i],
                ),
            forall|x: URI|
                #[trigger] cls_nothing2(self.vocab(), s@.to_set(), x) ==> report_views(final(out)@).contains(
                    ("cls-nothing2"@, cls_nothing2_message(self.terms(), x)),
                ),
    {
        let ghost S = s@.to_set();
        let vs = find_cls_nothing2(&self.vocab, s);
        let ghost start = report_views(out@);
        let mut i: usize = 0;
        while i < vs.len()
            invariant
                S == s@.to_set(),
                0 <= i <= vs@.len(),
                forall|x: URI| #[trigger] vs@.contains(x) <==> cls_nothing2(self.vocab(), S, x),
                start == report_views(old(out)@),
                start.is_prefix_of(report_views(out@)),
                forall|k: int|
                    start.len() <= k < out@.len() ==> violation_report(self.vocab(), self.terms(), S, #[trigger] report_views(out@)[k]),
                forall|j: int|
                    0 <= j < i ==> report_views(out@).contains(
                        ("cls-nothing2"@, cls_nothing2_message(self.terms(), #[trigger] vs@[j])),
                    ),
            decreases vs@.len() - i,
        {
            let x = vs[i];
            let ghost before = report_views(out@);
            out.push((String::from_str("cls-nothing2"), self.cls_nothing2_msg(x)));
            proof {
                let r = ("cls-nothing2"@, cls_nothing2_message(self.terms(), x));
                assert(report_views(out@) =~= before.push(r));
                assert(vs@.contains(x));
                assert(vs@[i as int] == x);
                assert(cls_nothing2(self.vocab(), S, x));
                assert(violation_report(self.vocab(), self.terms(), S, r));
                assert forall|k: int| 0 <= k < start.len() implies #[trigger] report_views(out@)[k] == start[k] by {
                    assert(before[k] == start[k]);
                }
                assert forall|k: int|
                    start.len() <= k < out@.len() implies violation_report(self.vocab(), self.terms(), S, #[trigger] report_views(out@)[k]) by {
                    if k < before.len() {
                        assert(report_views(out@)[k] == before[k]);
                    }
                }
                assert forall|j: int| 0 <= j < i + 1 implies report_views(out@).contains(
                    ("cls-nothing2"@, cls_nothing2_message(self.terms(), #[trigger] vs@[j])),
                ) by {
                    if j < i {
                        let w = ("cls-nothing2"@, cls_nothing2_message(self.terms(), vs@[j]));
                        let q = choose|q: int| 0 <= q < before.len() && before[q] == w;
                        assert(report_views(out@)[q] == w);
                    } else {
                        assert(report_views(out@)[before.len() as int] == r);
                    }
                }
            }
            i += 1;
        }
        proof {
            assert forall|x: URI|
                #[trigger] cls_nothing2(self.vocab(), S, x) implies report_views(out@).contains(
                    ("cls-nothing2"@, cls_nothing2_message(self.terms(), x)),
                ) by {
                assert(vs@.contains(x));
                let j = choose|j: int| 0 <= j < vs@.len() && vs@[j] == x;
            }
        }
    }
}

} // verus!

verus! {

/// The lists of a graph, as the rules see them: the members of the list
/// that starts at each node.
pub open spec fn input_lists(v: Vocab, s: Seq<KeyedTriple>) -> Lists {
    |l: URI| list_members(s, v.rdf_first, v.rdf_rest, v.rdf_nil, l)
}

/// `closure` is what reasoning makes of `input`: it holds `input`, is closed
/// under the rules (with the lists of `input`) and under the complement rule,
/// holds nothing that does not follow from `input` and its complement
/// instances, is `input` itself where `input` is already closed under both,
/// is strictly ascending, and is the first stage of the materialization
/// (the least closed set, then alternately the complement instances and the
/// least closed set again) to which the complement rule adds nothing.
pub open spec fn materialized(v: Vocab, input: Seq<KeyedTriple>, closure: Seq<KeyedTriple>) -> bool {
    &&& sorted_strict(closure)
    &&& forall|t: KeyedTriple| #[trigger] input.contains(t) ==> closure.contains(t)
    &&& closed(v, input_lists(v, input), closure.to_set())
    &&& forall|t: KeyedTriple| #[trigger] derives_complement(v, closure.to_set(), t) ==> closure.contains(t)
    &&& least_with_complements(v, input_lists(v, input), input, closure.to_set())
    &&& closed(v, input_lists(v, input), input.to_set()) && complement_closed(v, input.to_set())
        ==> closure.to_set() == input.to_set()
    &&& exists|k: nat|
        #[trigger] first_fixed_stage(v, input_lists(v, input), input.to_set(), k) && closure.to_set() == stage(
            v,
            input_lists(v, input),
            input.to_set(),
            k,
        )
}

impl Reasoner {
    /// The reports of the violations in `s`: cax-dw, then prp-irp, prp-asyp,
    /// prp-pdw and cls-nothing2.
    fn violation_reports(&self, s: &Vec<KeyedTriple>) -> (r: Vec<(String, String)>)
        requires
            sorted_strict(s@),
        ensures
            reports_of(self.vocab(), self.terms(), s@.to_set(), report_views(r@)),
    {
        let mut r: Vec<(String, String)> = Vec::new();
        self.report_cax_dw(s, &mut r);
        let ghost r1 = report_views(r@);
        self.report_prp_irp(s, &mut r);
        let ghost r2 = report_views(r@);
        self.report_prp_asyp(s, &mut r);
        let ghost r3 = report_views(r@);
        self.report_prp_pdw(s, &mut r);
        let ghost r4 = report_views(r@);
        self.report_cls_nothing2(s, &mut r);
        proof {
            let rv = report_views(r@);
            assert forall|q: (Seq<char>, Seq<char>)| r1.contains(q) implies rv.contains(q) by {
                let k = choose|k: int| 0 <= k < r1.len() && r1[k] == q;
                assert(r2[k] == q && r3[k] == q && r4[k] == q && rv[k] == q);
            }
            assert forall|q: (Seq<char>, Seq<char>)| r2.contains(q) implies rv.contains(q) by {
                let k = choose|k: int| 0 <= k < r2.len() && r2[k] == q;
                assert(r3[k] == q && r4[k] == q && rv[k] == q);
            }
            assert forall|q: (Seq<char>, Seq<char>)| r3.contains(q) implies rv.contains(q) by {
                let k = choose|k: int| 0 <= k < r3.len() && r3[k] == q;
                assert(r4[k] == q && rv[k] == q);
            }
            assert forall|q: (Seq<char>, Seq<char>)| r4.contains(q) implies rv.contains(q) by {
                let k = choose|k: int| 0 <= k < r4.len() && r4[k] == q;
                assert(rv[k] == q);
            }
            assert forall|i: int| 0 <= i < rv.len() implies violation_report(self.vocab(), self.terms(), s@.to_set(), #[trigger] rv[i]) by {
                if i < r1.len() {
                    assert(r1[i] == rv[i]);
                } else if i < r2.len() {
                    assert(r2[i] == rv[i]);
                } else if i < r3.len() {
                    assert(r3[i] == rv[i]);
                } else if i < r4.len() {
                    assert(r4[i] == rv[i]);
                }
            }
        }
        r
    }

    /// Records the reports, in order, as the options say.
    fn record_reports(&mut self, reports: &Vec<(String, String)>)
        requires
            old(self).wf(),
        ensures
            final(self).wf(),
            (error_views(final(self).error_list()), final(self).seen()) == add_reports(
                old(self).options(),
                error_views(old(self).error_list()),
                old(self).seen(),
                report_views(reports@),
            ),
            final(self).terms() == old(self).terms(),
            final(self).vocab() == old(self).vocab(),
            final(self).input() == old(self).input(),
            final(self).base() == old(self).base(),
            final(self).options() == old(self).options(),
            final(self).output() == old(self).output(),
    {
        let mut i: usize = 0;
        while i < reports.len()
            invariant
                self.wf(),
                0 <= i <= reports@.len(),
                (error_views(self.error_list()), self.seen()) == add_reports(
                    old(self).options(),
                    error_views(old(self).error_list()),
                    old(self).seen(),
                    report_views(reports@).take(i as int),
                ),
                self.terms() == old(self).terms(),
                self.vocab() == old(self).vocab(),
                self.input() == old(self).input(),
                self.base() == old(self).base(),
                self.options() == old(self).options(),
                self.output() == old(self).output(),
            decreases reports@.len() - i,
        {
            let rule = reports[i].0.clone();
            let message = reports[i].1.clone();
            proof {
                let t = report_views(reports@).take(i + 1);
                assert(t.drop_last() =~= report_views(reports@).take(i as int));
                assert(t.last() == (rule@, message@));
            }
            self.add_error(rule, message);
            i += 1;
        }
        proof {
            assert(report_views(reports@).take(reports@.len() as int) =~= report_views(reports@));
        }
    }

    /// The number of triples that the next round reasons over.
    pub fn input_len(&self) -> (n: usize)
        ensures
            n == self.input().len(),
    {
        self.input.len()
    }

    /// Reasons over the input: materializes its closure under the OWL 2 RL
    /// rules (with the lists of the input) and the complement rule, reports
    /// the violations of the closure that the last round's closure did not
    /// hold, and makes the closure the output (as triples of terms), the
    /// input of the next round and the last round.
    pub fn reason(&mut self)
        requires
            old(self).wf(),
            old(self).input().len() < usize::MAX / 4,
        ensures
            final(self).wf(),
            final(self).terms() == old(self).terms(),
            final(self).vocab() == old(self).vocab(),
            final(self).base() == old(self).base(),
            final(self).options() == old(self).options(),
            materialized(final(self).vocab(), old(self).input(), final(self).input()),
            final(self).last_round() == final(self).input(),
            final(self).output().map_values(|t: Triple| t@) == rendered(final(self).terms(), final(self).input(), true),
            exists|reports: Seq<(Seq<char>, Seq<char>)>|
                reports_of(final(self).vocab(), final(self).terms(), final(self).input().to_set(), reports) && (
                error_views(final(self).error_list()),
                final(self).seen(),
            ) == #[trigger] add_reports(
                old(self).options(),
                error_views(old(self).error_list()),
                old(self).seen(),
                fresh_reports(final(self).vocab(), final(self).terms(), old(self).last_round().to_set(), reports),
            ),
    {
        let v = self.vocab;
        let ghost L = input_lists(v, self.input@);
        let ds = DisjointSets::new(&self.input, v.rdf_first, v.rdf_rest, v.rdf_nil);
        proof {
            assert(lists_of(ds) =~= L) by {
                assert forall|l: URI| #[trigger] lists_of(ds)(l) == L(l) by {}
            }
            assert(vocab_ids(v)[0] == v.rdf_type);
            assert(vocab_ids(v)[8] == v.owl_thing);
            assert(vocab_ids(v)[10] == v.owl_sameas);
            assert(vocab_ids(v)[1] == v.rdf_first);
            assert forall|t: KeyedTriple| #[trigger] self.input@.to_set().contains(t) implies t.0 < self.index@.len()
                && t.1.0 < self.index@.len() && t.1.1 < self.index@.len() by {
                let j = choose|j: int| 0 <= j < self.input@.len() && self.input@[j] == t;
            }
            assert forall|k: URI| #[trigger] ds.first_of().contains_key(k) implies self.input@.contains(
                (k, (v.rdf_first, ds.first_of()[k])),
            ) by {
                assert(greatest_first(self.input@, v.rdf_first, k, ds.first_of()[k]));
            }
        }
        let known = self.violation_reports(&self.last_round);
        let bound = self.index.len() as u64;
        let closure = materialize(&v, &ds, copy_triples(&self.input), bound);
        proof {
            assert forall|i: int| 0 <= i < closure@.len() implies (#[trigger] closure@[i]).0 < self.index@.len()
                && closure@[i].1.0 < self.index@.len() && closure@[i].1.1 < self.index@.len() by {
                assert(closure@.to_set().contains(closure@[i]));
            }
        }
        let reports = self.violation_reports(&closure);
        let fresh = unknown_reports(&reports, &known);
        proof {
            let kv = report_views(known@);
            let S0 = self.last_round@.to_set();
            let p1 = |q: (Seq<char>, Seq<char>)| !kv.contains(q);
            let p2 = |q: (Seq<char>, Seq<char>)| !violation_report(v, self.index@, S0, q);
            assert forall|q: (Seq<char>, Seq<char>)| #[trigger] p1(q) == p2(q) by {
                lemma_reports_of_contains(v, self.index@, S0, kv, q);
            }
            assert(p1 =~= p2);
            assert(report_views(fresh@) == fresh_reports(v, self.index@, S0, report_views(reports@)));
        }
        let ghost errs0 = error_views(self.errors@);
        let ghost seen0 = self.seen();
        let ghost S0 = self.last_round@.to_set();
        self.record_reports(&fresh);
        self.output = self.render(&closure, true);
        self.last_round = copy_triples(&closure);
        self.input = closure;
        proof {
            let rep = report_views(reports@);
            assert(reports_of(self.vocab, self.index@, self.input@.to_set(), rep));
            assert((error_views(self.errors@), self.seen()) == add_reports(
                self.options,
                errs0,
                seen0,
                fresh_reports(self.vocab, self.index@, S0, rep),
            ));
            assert(S0 == old(self).last_round().to_set());
            assert(errs0 == error_views(old(self).error_list()));
            assert(seen0 == old(self).seen());
            assert(reports_of(self.vocab(), self.terms(), self.input().to_set(), rep) && (
                error_views(self.error_list()),
                self.seen(),
            ) == add_reports(
                old(self).options(),
                error_views(old(self).error_list()),
                old(self).seen(),
                fresh_reports(self.vocab(), self.terms(), old(self).last_round().to_set(), rep),
            ));
        }
    }
}

} // verus!

verus! {

/// `r` is a reasoner as `Reasoner::new` makes it.
pub open spec fn is_new(r: Reasoner) -> bool {
    &&& r.wf()
    &&& r.input() == seq![
        (r.vocab().owl_thing, (r.vocab().rdf_type, r.vocab().owl_class)),
        (r.vocab().owl_nothing, (r.vocab().rdf_type, r.vocab().owl_class)),
    ]
    &&& r.base() == r.input()
    &&& r.error_list().len() == 0
    &&& r.seen().len() == 0
    &&& r.output().len() == 0
    &&& r.last_round().len() == 0
}

/// `new` is `old` after loading the string triples `strs` (what
/// `load_triples_str` ensures).
pub open spec fn loaded_str_into(old: Reasoner, new: Reasoner, strs: Seq<(Seq<char>, Seq<char>, Seq<char>)>) -> bool {
    &&& new.wf()
    &&& old.terms().is_prefix_of(new.terms())
    &&& new.terms().len() <= old.terms().len() + 3 * strs.len()
    &&& forall|k: int| old.terms().len() <= k < new.terms().len() ==> new_term_from(strs, #[trigger] new.terms()[k])
    &&& forall|i: int|
        0 <= i < strs.len() && valid_iris(#[trigger] strs[i]) ==> exists|t: KeyedTriple| names_triple(new.terms(), t, strs[i])
    &&& forall|t: KeyedTriple| #[trigger] new.input().contains(t) <==> (old.input().contains(t) || loaded_str(new.terms(), strs, t))
    &&& forall|t: KeyedTriple|
        #[trigger] new.base().contains(t) <==> (old.base().contains(t) || (loaded_str(new.terms(), strs, t)
            && !old.input().contains(t)))
    &&& new.vocab() == old.vocab()
    &&& new.error_list() == old.error_list()
    &&& new.seen() == old.seen()
    &&& new.options() == old.options()
    &&& new.output() == old.output()
    &&& new.last_round() == old.last_round()
    &&& exists|sorted_old: Seq<KeyedTriple>, added: Seq<KeyedTriple>|
        #[trigger] appends(old.input(), old.base(), new.input(), new.base(), sorted_old, added) && forall|t: KeyedTriple|
            #[trigger] added.contains(t) <==> (loaded_str(new.terms(), strs, t) && !old.input().contains(t))
}

/// `chain` goes from a new reasoner through the loads of the files
/// (`loaded`, in order), then of the string triples `strs` (where there are
/// any), then of the triples `given` (where there are any).
pub open spec fn load_chain(
    chain: Seq<Reasoner>,
    loaded: Seq<Result<Vec<Triple>, ReasonableError>>,
    strs: Seq<(Seq<char>, Seq<char>, Seq<char>)>,
    given: Seq<TripleView>,
) -> bool {
    let n = loaded.len() as int;
    &&& chain.len() == n + 3
    &&& is_new(chain[0])
    &&& forall|k: int|
        0 <= k < n ==> loaded_into(chain[k], #[trigger] chain[k + 1], triple_views(loaded[k]->Ok_0@))
    &&& if strs.len() > 0 {
        loaded_str_into(chain[n], chain[n + 1], strs)
    } else {
        chain[n + 1] == chain[n]
    }
    &&& if given.len() > 0 {
        loaded_into(chain[n + 1], chain[n + 2], given)
    } else {
        chain[n + 2] == chain[n + 1]
    }
}

/// `new` is `old` after loading the triples `tvs` (what `load_triples`
/// ensures): the terms grow by terms of `tvs` only, every triple of `tvs` is
/// interned, the loaded triples not yet in the input are appended, ascending,
/// to the sorted input and to the base, and nothing else changes.
pub open spec fn loaded_into(old: Reasoner, new: Reasoner, tvs: Seq<TripleView>) -> bool {
    &&& new.wf()
    &&& old.terms().is_prefix_of(new.terms())
    &&& new.terms().len() <= old.terms().len() + 3 * tvs.len()
    &&& forall|k: int| old.terms().len() <= k < new.terms().len() ==> term_of_triples(tvs, #[trigger] new.terms()[k])
    &&& forall|i: int| 0 <= i < tvs.len() ==> interned(new.terms(), #[trigger] tvs[i])
    &&& forall|t: KeyedTriple|
        #[trigger] new.input().contains(t) <==> (old.input().contains(t) || loaded_triple(new.terms(), tvs, t))
    &&& forall|t: KeyedTriple|
        #[trigger] new.base().contains(t) <==> (old.base().contains(t) || (loaded_triple(new.terms(), tvs, t)
            && !old.input().contains(t)))
    &&& new.vocab() == old.vocab()
    &&& new.error_list() == old.error_list()
    &&& new.seen() == old.seen()
    &&& new.options() == old.options()
    &&& new.output() == old.output()
    &&& new.last_round() == old.last_round()
    &&& exists|sorted_old: Seq<KeyedTriple>, added: Seq<KeyedTriple>|
        #[trigger] appends(old.input(), old.base(), new.input(), new.base(), sorted_old, added) && forall|t: KeyedTriple|
            #[trigger] added.contains(t) <==> (loaded_triple(new.terms(), tvs, t) && !old.input().contains(t))
    &&& (forall|t: KeyedTriple| #[trigger] loaded_triple(new.terms(), tvs, t) ==> old.input().contains(t)) ==> new.base()
        == old.base()
}

/// `after_input` is `before_input` sorted (as `sorted_old`) with `added`
/// behind it, and `after_base` is `before_base` with `added` behind it, where
/// `added` is ascending.
pub open spec fn appends(
    before_input: Seq<KeyedTriple>,
    before_base: Seq<KeyedTriple>,
    after_input: Seq<KeyedTriple>,
    after_base: Seq<KeyedTriple>,
    sorted_old: Seq<KeyedTriple>,
    added: Seq<KeyedTriple>,
) -> bool {
    &&& sorted(sorted_old)
    &&& sorted_old.to_multiset() == before_input.to_multiset()
    &&& sorted(added)
    &&& after_input == sorted_old + added
    &&& after_base == before_base + added
}

/// The identifier `u` names the IRI `iri`.
pub open spec fn names(terms: Seq<TermView>, u: URI, iri: Seq<char>) -> bool {
    u < terms.len() && terms[u as int] == TermView::NamedNode(iri)
}

/// The identifiers of `t` name the IRIs of `iris`.
pub open spec fn names_triple(terms: Seq<TermView>, t: KeyedTriple, iris: (Seq<char>, Seq<char>, Seq<char>)) -> bool {
    names(terms, t.0, iris.0) && names(terms, t.1.0, iris.1) && names(terms, t.1.1, iris.2)
}

/// oxrdf accepts the three strings as IRIs.
pub open spec fn valid_iris(iris: (Seq<char>, Seq<char>, Seq<char>)) -> bool {
    oxrdf_valid_iri(iris.0) && oxrdf_valid_iri(iris.1) && oxrdf_valid_iri(iris.2)
}

/// The views of a list of string triples.
pub open spec fn str_triples(triples: Seq<(&str, &str, &str)>) -> Seq<(Seq<char>, Seq<char>, Seq<char>)> {
    triples.map_values(|x: (&str, &str, &str)| (x.0@, x.1@, x.2@))
}

/// `t` stands for one of the string triples whose strings are all IRIs.
pub open spec fn loaded_str(terms: Seq<TermView>, iris: Seq<(Seq<char>, Seq<char>, Seq<char>)>, t: KeyedTriple) -> bool {
    exists|i: int| 0 <= i < iris.len() && valid_iris(#[trigger] iris[i]) && names_triple(terms, t, iris[i])
}

/// A term that a load added is the named node of one of the strings.
pub open spec fn new_term_from(iris: Seq<(Seq<char>, Seq<char>, Seq<char>)>, t: TermView) -> bool {
    exists|i: int|
        0 <= i < iris.len() && (t == TermView::NamedNode(#[trigger] iris[i].0) || t == TermView::NamedNode(iris[i].1)
            || t == TermView::NamedNode(iris[i].2))
}

proof fn lemma_names_grow(a: Seq<TermView>, b: Seq<TermView>, u: URI, iri: Seq<char>)
    requires
        a.is_prefix_of(b),
        names(a, u, iri),
    ensures
        names(b, u, iri),
{
    assert(b[u as int] == a[u as int]);
}

proof fn lemma_names_triple_grow(a: Seq<TermView>, b: Seq<TermView>, t: KeyedTriple, iris: (Seq<char>, Seq<char>, Seq<char>))
    requires
        a.is_prefix_of(b),
        names_triple(a, t, iris),
    ensures
        names_triple(b, t, iris),
{
    lemma_names_grow(a, b, t.0, iris.0);
    lemma_names_grow(a, b, t.1.0, iris.1);
    lemma_names_grow(a, b, t.1.1, iris.2);
}

proof fn lemma_multiset_contains(a: Seq<KeyedTriple>, b: Seq<KeyedTriple>)
    requires
        a.to_multiset() == b.to_multiset(),
    ensures
        forall|t: KeyedTriple| #![trigger a.contains(t)] #![trigger b.contains(t)] a.contains(t) <==> b.contains(t),
{
    broadcast use vstd::seq_lib::group_to_multiset_ensures;
    assert forall|t: KeyedTriple| #![trigger a.contains(t)] #![trigger b.contains(t)] a.contains(t) <==> b.contains(t) by {
        assert(a.contains(t) <==> a.to_multiset().count(t) > 0);
        assert(b.contains(t) <==> b.to_multiset().count(t) > 0);
    }
}

impl Reasoner {
    /// The number of interned terms.
    pub fn term_count(&self) -> (n: usize)
        ensures
            n == self.terms().len(),
    {
        self.index.len()
    }

    /// Adds triples to both the base and the input.
    fn add_base_triples(&mut self, trips: Vec<KeyedTriple>)
        requires
            old(self).wf(),
            ids_interned(trips@, old(self).terms().len() as int),
        ensures
            final(self).wf(),
            final(self).base() == old(self).base() + trips@,
            final(self).input() == old(self).input() + trips@,
            final(self).terms() == old(self).terms(),
            final(self).vocab() == old(self).vocab(),
            final(self).error_list() == old(self).error_list(),
            final(self).seen() == old(self).seen(),
            final(self).options() == old(self).options(),
            final(self).output() == old(self).output(),
            final(self).last_round() == old(self).last_round(),
    {
        let mut copy = copy_triples(&trips);
        let mut t = trips;
        self.base.append(&mut copy);
        self.input.append(&mut t);
        proof {
            let n = self.index@.len() as int;
            assert forall|i: int| 0 <= i < self.base@.len() implies (#[trigger] self.base@[i]).0 < n
                && self.base@[i].1.0 < n && self.base@[i].1.1 < n by {
                if i < old(self).base@.len() {
                    assert(self.base@[i] == old(self).base@[i]);
                } else {
                    assert(self.base@[i] == trips@[i - old(self).base@.len()]);
                }
            }
            assert forall|i: int| 0 <= i < self.input@.len() implies (#[trigger] self.input@[i]).0 < n
                && self.input@[i].1.0 < n && self.input@[i].1.1 < n by {
                if i < old(self).input@.len() {
                    assert(self.input@[i] == old(self).input@[i]);
                } else {
                    assert(self.input@[i] == trips@[i - old(self).input@.len()]);
                }
            }
        }
    }
}

} // verus!

verus! {

/// The terms that interning the strings of one triple adds are named nodes
/// of those strings.
proof fn lemma_new_terms(
    t0: Seq<TermView>,
    before: Seq<TermView>,
    m1: Seq<TermView>,
    m2: Seq<TermView>,
    after: Seq<TermView>,
    strs: Seq<(Seq<char>, Seq<char>, Seq<char>)>,
    i: int,
)
    requires
        0 <= i < strs.len(),
        t0.is_prefix_of(before),
        before.is_prefix_of(m1),
        m1.is_prefix_of(m2),
        m2.is_prefix_of(after),
        forall|k: int| t0.len() <= k < before.len() ==> new_term_from(strs, #[trigger] before[k]),
        forall|k: int| before.len() <= k < m1.len() ==> #[trigger] m1[k] == TermView::NamedNode(strs[i].0),
        forall|k: int| m1.len() <= k < m2.len() ==> #[trigger] m2[k] == TermView::NamedNode(strs[i].1),
        forall|k: int| m2.len() <= k < after.len() ==> #[trigger] after[k] == TermView::NamedNode(strs[i].2),
    ensures
        forall|k: int| t0.len() <= k < after.len() ==> new_term_from(strs, #[trigger] after[k]),
{
    assert forall|k: int| t0.len() <= k < after.len() implies new_term_from(strs, #[trigger] after[k]) by {
        if k < before.len() {
            assert(after[k] == m2[k] && m2[k] == m1[k] && m1[k] == before[k]);
        } else if k < m1.len() {
            assert(after[k] == m2[k] && m2[k] == m1[k]);
            assert(after[k] == TermView::NamedNode(strs[i].0));
        } else if k < m2.len() {
            assert(after[k] == m2[k]);
            assert(after[k] == TermView::NamedNode(strs[i].1));
        } else {
            assert(after[k] == TermView::NamedNode(strs[i].2));
        }
    }
}

/// Interns the named node `key`, if oxrdf accepts it as an IRI.
fn put_iri(index: &mut URIIndex, key: &str) -> (r: Option<URI>)
    requires
        old(index).wf(),
        old(index)@.len() < u32::MAX,
    ensures
        final(index).wf(),
        old(index)@.is_prefix_of(final(index)@),
        final(index)@.len() <= old(index)@.len() + 1,
        forall|k: int| old(index)@.len() <= k < final(index)@.len() ==> #[trigger] final(index)@[k] == TermView::NamedNode(key@),
        match r {
            Some(id) => oxrdf_valid_iri(key@) && names(final(index)@, id, key@),
            None => !oxrdf_valid_iri(key@),
        },
{
    match index.put_str(key) {
        Ok(id) => Some(id),
        Err(_) => None,
    }
}

impl Reasoner {
    /// Interns the strings of each triple, and returns the identifiers of
    /// the triples whose strings are all IRIs.
    fn intern_str_triples(&mut self, triples: &Vec<(&'static str, &'static str, &'static str)>) -> (trips: Vec<KeyedTriple>)
        requires
            old(self).wf(),
            old(self).terms().len() + 3 * triples@.len() < u32::MAX,
        ensures
            final(self).wf(),
            old(self).terms().is_prefix_of(final(self).terms()),
            final(self).terms().len() <= old(self).terms().len() + 3 * triples@.len(),
            forall|k: int|
                old(self).terms().len() <= k < final(self).terms().len() ==> new_term_from(
                    str_triples(triples@),
                    #[trigger] final(self).terms()[k],
                ),
            forall|i: int|
                0 <= i < triples@.len() && valid_iris(#[trigger] str_triples(triples@)[i]) ==> exists|t: KeyedTriple|
                    names_triple(final(self).terms(), t, str_triples(triples@)[i]),
            forall|t: KeyedTriple| #[trigger] trips@.contains(t) <==> loaded_str(final(self).terms(), str_triples(triples@), t),
            ids_interned(trips@, final(self).terms().len() as int),
            final(self).vocab() == old(self).vocab(),
            final(self).input() == old(self).input(),
            final(self).base() == old(self).base(),
            final(self).error_list() == old(self).error_list(),
            final(self).seen() == old(self).seen(),
            final(self).options() == old(self).options(),
            final(self).output() == old(self).output(),
            final(self).last_round() == old(self).last_round(),
    {
        let ghost strs = str_triples(triples@);
        let ghost t0 = self.index@;
        let ghost mut origin: Seq<int> = Seq::empty();
        let ghost mut slot: Map<int, int> = Map::empty();
        let mut trips: Vec<KeyedTriple> = Vec::new();
        let mut i: usize = 0;
        while i < triples.len()
            invariant
                strs == str_triples(triples@),
                0 <= i <= triples@.len(),
                t0 == old(self).terms(),
                old(self).terms().len() + 3 * triples@.len() < u32::MAX,
                self.wf(),
                t0.is_prefix_of(self.index@),
                self.index@.len() <= t0.len() + 3 * i,
                self.vocab == old(self).vocab,
                self.input@ == old(self).input@,
                self.base@ == old(self).base@,
                self.errors@ == old(self).errors@,
                self.seen_diags@ == old(self).seen_diags@,
                self.options == old(self).options,
                self.output@ == old(self).output@,
                self.last_round@ == old(self).last_round@,
                forall|k: int| t0.len() <= k < self.index@.len() ==> new_term_from(strs, #[trigger] self.index@[k]),
                origin.len() == trips@.len(),
                forall|j: int|
                    0 <= j < trips@.len() ==> 0 <= #[trigger] origin[j] < i && valid_iris(strs[origin[j]]) && names_triple(
                        self.index@,
                        trips@[j],
                        strs[origin[j]],
                    ),
                forall|q: int|
                    0 <= q < i && valid_iris(#[trigger] strs[q]) ==> slot.contains_key(q) && 0 <= slot[q] < trips@.len()
                        && origin[slot[q]] == q,
            decreases triples@.len() - i,
        {
            let (a, b, c) = triples[i];
            let ghost before = self.index@;
            proof {
                assert(strs[i as int] == (a@, b@, c@));
            }
            let rs = put_iri(&mut self.index, a);
            let ghost m1 = self.index@;
            let rp = put_iri(&mut self.index, b);
            let ghost m2 = self.index@;
            let ro = put_iri(&mut self.index, c);
            let ghost after = self.index@;
            proof {
                lemma_new_terms(t0, before, m1, m2, after, strs, i as int);
                assert(t0.is_prefix_of(after));
                assert forall|j: int| 0 <= j < trips@.len() implies names_triple(after, trips@[j], strs[#[trigger] origin[j]]) by {
                    lemma_names_triple_grow(before, after, trips@[j], strs[origin[j]]);
                }
                assert forall|q: int| 0 <= q < vocab_ids(self.vocab).len() implies #[trigger] vocab_ids(self.vocab)[q]
                    < after.len() && after[vocab_ids(self.vocab)[q] as int] == TermView::NamedNode(vocab_iris()[q]) by {
                    assert(before[vocab_ids(self.vocab)[q] as int] == after[vocab_ids(self.vocab)[q] as int]);
                }
            }
            match (rs, rp, ro) {
                (Some(s), Some(p), Some(o)) => {
                    proof {
                        lemma_names_grow(m1, after, s, a@);
                        lemma_names_grow(m2, after, p, b@);
                        assert(names_triple(after, (s, (p, o)), strs[i as int]));
                        slot = slot.insert(i as int, trips@.len() as int);
                        origin = origin.push(i as int);
                    }
                    trips.push((s, (p, o)));
                },
                _ => {
                    proof {
                        assert(!valid_iris(strs[i as int]));
                    }
                },
            }
            i += 1;
        }
        proof {
            let terms = self.index@;
            self.index.lemma_distinct();
            assert forall|j: int| 0 <= j < trips@.len() implies (#[trigger] trips@[j]).0 < terms.len()
                && trips@[j].1.0 < terms.len() && trips@[j].1.1 < terms.len() by {
                assert(names_triple(terms, trips@[j], strs[origin[j]]));
            }
            assert forall|t: KeyedTriple| #[trigger] trips@.contains(t) <==> loaded_str(terms, strs, t) by {
                if trips@.contains(t) {
                    let j = choose|j: int| 0 <= j < trips@.len() && trips@[j] == t;
                    assert(valid_iris(strs[origin[j]]) && names_triple(terms, t, strs[origin[j]]));
                }
                if loaded_str(terms, strs, t) {
                    let q = choose|q: int| 0 <= q < strs.len() && valid_iris(#[trigger] strs[q]) && names_triple(terms, t, strs[q]);
                    let j = slot[q];
                    assert(origin[j] == q);
                    let u = trips@[j];
                    assert(names_triple(terms, u, strs[q]));
                    assert(terms[u.0 as int] == terms[t.0 as int]);
                    assert(terms[u.1.0 as int] == terms[t.1.0 as int]);
                    assert(terms[u.1.1 as int] == terms[t.1.1 as int]);
                    assert(u == t);
                    assert(trips@[j] == t);
                }
            }
            assert forall|q: int|
                0 <= q < triples@.len() && valid_iris(#[trigger] str_triples(triples@)[q]) implies exists|t: KeyedTriple|
                    names_triple(terms, t, str_triples(triples@)[q]) by {
                let j = slot[q];
                assert(origin[j] == q);
                assert(names_triple(terms, trips@[j], strs[q]));
            }
        }
        trips
    }

    /// Adds to the base and the input the triples of `trips` that the input
    /// does not hold yet.
    fn add_new_triples(&mut self, trips: Vec<KeyedTriple>)
        requires
            old(self).wf(),
            ids_interned(trips@, old(self).terms().len() as int),
        ensures
            final(self).wf(),
            forall|t: KeyedTriple| #[trigger] final(self).input().contains(t) <==> (old(self).input().contains(t) || trips@.contains(t)),
            forall|t: KeyedTriple|
                #[trigger] final(self).base().contains(t) <==> (old(self).base().contains(t) || (trips@.contains(t)
                    && !old(self).input().contains(t))),
            final(self).terms() == old(self).terms(),
            final(self).vocab() == old(self).vocab(),
            final(self).error_list() == old(self).error_list(),
            final(self).seen() == old(self).seen(),
            final(self).options() == old(self).options(),
            final(self).output() == old(self).output(),
            final(self).last_round() == old(self).last_round(),
            exists|sorted_old: Seq<KeyedTriple>, added: Seq<KeyedTriple>|
                #[trigger] appends(
                    old(self).input(),
                    old(self).base(),
                    final(self).input(),
                    final(self).base(),
                    sorted_old,
                    added,
                ) && forall|t: KeyedTriple| #[trigger] added.contains(t) <==> (trips@.contains(t) && !old(self).input().contains(t)),
    {
        let ghost terms = self.index@;
        let ghost unsorted = trips@;
        let mut trips = trips;
        crate::relation::sort_triples(&mut trips);
        let ghost old_input = self.input@;
        crate::relation::sort_triples(&mut self.input);
        proof {
            lemma_multiset_contains(unsorted, trips@);
            lemma_multiset_contains(old_input, self.input@);
            assert forall|j: int| 0 <= j < self.input@.len() implies (#[trigger] self.input@[j]).0 < terms.len()
                && self.input@[j].1.0 < terms.len() && self.input@[j].1.1 < terms.len() by {
                assert(self.input@.contains(self.input@[j]));
                let k = choose|k: int| 0 <= k < old_input.len() && old_input[k] == self.input@[j];
            }
        }
        let ghost sorted_trips = trips@;
        crate::relation::get_unique(self.input.as_slice(), &mut trips);
        proof {
            assert forall|t: KeyedTriple| #[trigger] trips@.contains(t) <==> (sorted_trips.contains(t) && !self.input@.contains(t)) by {
                let f = |t: KeyedTriple| !self.input@.contains(t);
                assert(trips@ == sorted_trips.filter(f));
                if trips@.contains(t) {
                    let k = choose|k: int| 0 <= k < trips@.len() && trips@[k] == t;
                    sorted_trips.lemma_filter_pred(f, k);
                    sorted_trips.lemma_filter_contains_rev(f, t);
                }
                if sorted_trips.contains(t) && !self.input@.contains(t) {
                    let k = choose|k: int| 0 <= k < sorted_trips.len() && sorted_trips[k] == t;
                    sorted_trips.lemma_filter_contains(f, k);
                }
            }
            assert forall|j: int| 0 <= j < trips@.len() implies (#[trigger] trips@[j]).0 < terms.len()
                && trips@[j].1.0 < terms.len() && trips@[j].1.1 < terms.len() by {
                assert(trips@.contains(trips@[j]));
                let k = choose|k: int| 0 <= k < unsorted.len() && unsorted[k] == trips@[j];
            }
        }
        let ghost added = trips@;
        let ghost sorted_input = self.input@;
        self.add_base_triples(trips);
        proof {
            assert forall|t: KeyedTriple| #[trigger] self.input@.contains(t) <==> (old_input.contains(t) || unsorted.contains(t)) by {
                if self.input@.contains(t) {
                    let k = choose|k: int| 0 <= k < self.input@.len() && self.input@[k] == t;
                    if k < sorted_input.len() {
                        assert(sorted_input[k] == t);
                        assert(sorted_input.contains(t));
                    } else {
                        assert(added[k - sorted_input.len()] == t);
                        assert(added.contains(t));
                    }
                }
                if old_input.contains(t) {
                    assert(sorted_input.contains(t));
                    let k = choose|k: int| 0 <= k < sorted_input.len() && sorted_input[k] == t;
                    assert(self.input@[k] == t);
                } else if unsorted.contains(t) {
                    assert(sorted_trips.contains(t));
                    assert(!sorted_input.contains(t));
                    assert(added.contains(t));
                    let k = choose|k: int| 0 <= k < added.len() && added[k] == t;
                    assert(self.input@[sorted_input.len() + k] == t);
                }
            }
            assert forall|t: KeyedTriple| #[trigger] self.base@.contains(t) <==> (old(self).base@.contains(t) || (unsorted.contains(t)
                && !old_input.contains(t))) by {
                if self.base@.contains(t) {
                    let k = choose|k: int| 0 <= k < self.base@.len() && self.base@[k] == t;
                    if k < old(self).base@.len() {
                        assert(old(self).base@[k] == t);
                    } else {
                        assert(added[k - old(self).base@.len()] == t);
                        assert(added.contains(t));
                        assert(sorted_trips.contains(t));
                        assert(!sorted_input.contains(t));
                    }
                }
                if old(self).base@.contains(t) {
                    let k = choose|k: int| 0 <= k < old(self).base@.len() && old(self).base@[k] == t;
                    assert(self.base@[k] == t);
                } else if unsorted.contains(t) && !old_input.contains(t) {
                    assert(sorted_trips.contains(t));
                    assert(!sorted_input.contains(t));
                    assert(added.contains(t));
                    let k = choose|k: int| 0 <= k < added.len() && added[k] == t;
                    assert(self.base@[old(self).base@.len() + k] == t);
                }
            }
            let f = |t: KeyedTriple| !sorted_input.contains(t);
            lemma_sorted_filter(sorted_trips, f);
            assert(added == sorted_trips.filter(f));
            let fresh = |t: KeyedTriple| unsorted.contains(t) && !old_input.contains(t);
            assert forall|t: KeyedTriple| #[trigger] added.contains(t) <==> fresh(t) by {
                if fresh(t) {
                    assert(sorted_trips.contains(t));
                    assert(!sorted_input.contains(t));
                }
                if added.contains(t) {
                    assert(sorted_trips.contains(t) && !sorted_input.contains(t));
                    assert(!old_input.contains(t));
                }
            }
            assert(self.input@ == sorted_input + added);
            assert(appends(old_input, old(self).base@, self.input@, self.base@, sorted_input, added));
            assert(old_input == old(self).input());
            assert(appends(old(self).input(), old(self).base(), self.input(), self.base(), sorted_input, added)
                && forall|t: KeyedTriple| #[trigger] added.contains(t) <==> (unsorted.contains(t) && !old(self).input().contains(t)));
        }
    }

    /// Loads triples given as IRI strings. A triple with a string that is not
    /// an IRI is skipped (its other strings may still be interned). Triples
    /// already in the input are not added again.
    pub fn load_triples_str(&mut self, triples: Vec<(&'static str, &'static str, &'static str)>)
        requires
            old(self).wf(),
            old(self).terms().len() + 3 * triples@.len() < u32::MAX,
        ensures
            final(self).wf(),
            old(self).terms().is_prefix_of(final(self).terms()),
            final(self).terms().len() <= old(self).terms().len() + 3 * triples@.len(),
            forall|k: int|
                old(self).terms().len() <= k < final(self).terms().len() ==> new_term_from(
                    str_triples(triples@),
                    #[trigger] final(self).terms()[k],
                ),
            forall|i: int|
                0 <= i < triples@.len() && valid_iris(#[trigger] str_triples(triples@)[i]) ==> exists|t: KeyedTriple|
                    names_triple(final(self).terms(), t, str_triples(triples@)[i]),
            forall|t: KeyedTriple|
                #[trigger] final(self).input().contains(t) <==> (old(self).input().contains(t) || loaded_str(
                    final(self).terms(),
                    str_triples(triples@),
                    t,
                )),
            forall|t: KeyedTriple|
                #[trigger] final(self).base().contains(t) <==> (old(self).base().contains(t) || (loaded_str(
                    final(self).terms(),
                    str_triples(triples@),
                    t,
                ) && !old(self).input().contains(t))),
            final(self).vocab() == old(self).vocab(),
            final(self).error_list() == old(self).error_list(),
            final(self).seen() == old(self).seen(),
            final(self).options() == old(self).options(),
            final(self).output() == old(self).output(),
            final(self).last_round() == old(self).last_round(),
            exists|sorted_old: Seq<KeyedTriple>, added: Seq<KeyedTriple>|
                #[trigger] appends(
                    old(self).input(),
                    old(self).base(),
                    final(self).input(),
                    final(self).base(),
                    sorted_old,
                    added,
                ) && forall|t: KeyedTriple|
                    #[trigger] added.contains(t) <==> (loaded_str(final(self).terms(), str_triples(triples@), t) && !old(self).input().contains(t)),
            (forall|t: KeyedTriple| #[trigger] loaded_str(final(self).terms(), str_triples(triples@), t) ==> old(self).input().contains(t)) ==> final(self).base()
                == old(self).base(),
    {
        let trips = self.intern_str_triples(&triples);
        let ghost tr = trips@;
        self.add_new_triples(trips);
        proof {
            let (so, ad) = choose|so: Seq<KeyedTriple>, ad: Seq<KeyedTriple>|
                #[trigger] appends(old(self).input(), old(self).base(), self.input(), self.base(), so, ad) && forall|t: KeyedTriple|
                    #[trigger] ad.contains(t) <==> (tr.contains(t) && !old(self).input().contains(t));
            assert forall|t: KeyedTriple| #[trigger] ad.contains(t) <==> (loaded_str(self.terms(), str_triples(triples@), t) && !old(self).input().contains(t)) by {
                assert(tr.contains(t) <==> loaded_str(self.terms(), str_triples(triples@), t));
            }
            if forall|t: KeyedTriple| #[trigger] loaded_str(self.terms(), str_triples(triples@), t) ==> old(self).input().contains(t) {
                if ad.len() > 0 {
                    assert(ad.contains(ad[0]));
                }
                assert(ad =~= Seq::<KeyedTriple>::empty());
                assert(self.base() =~= old(self).base());
            }
        }
    }
}

} // verus!

verus! {

/// The identifiers of `t` stand for the terms of `tv`.
pub open spec fn stands_for(terms: Seq<TermView>, t: KeyedTriple, tv: TripleView) -> bool {
    &&& t.0 < terms.len() && t.1.0 < terms.len() && t.1.1 < terms.len()
    &&& terms[t.0 as int] == tv.subject
    &&& terms[t.1.0 as int] == tv.predicate
    &&& terms[t.1.1 as int] == tv.object
}

/// Some identifiers stand for the terms of `tv`.
pub open spec fn interned(terms: Seq<TermView>, tv: TripleView) -> bool {
    exists|t: KeyedTriple| #[trigger] stands_for(terms, t, tv)
}

/// `t` stands for one of the triples.
pub open spec fn loaded_triple(terms: Seq<TermView>, triples: Seq<TripleView>, t: KeyedTriple) -> bool {
    exists|i: int| 0 <= i < triples.len() && stands_for(terms, t, #[trigger] triples[i])
}

/// A term that a load added is a term of one of the triples.
pub open spec fn term_of_triples(triples: Seq<TripleView>, t: TermView) -> bool {
    exists|i: int|
        0 <= i < triples.len() && (t == (#[trigger] triples[i]).subject || t == triples[i].predicate || t
            == triples[i].object)
}

/// The views of a list of triples.
pub open spec fn triple_views(triples: Seq<Triple>) -> Seq<TripleView> {
    triples.map_values(|t: Triple| crate::common::canonical_triple(t@))
}

proof fn lemma_stands_grow(a: Seq<TermView>, b: Seq<TermView>, t: KeyedTriple, tv: TripleView)
    requires
        a.is_prefix_of(b),
        stands_for(a, t, tv),
    ensures
        stands_for(b, t, tv),
{
    assert(b[t.0 as int] == a[t.0 as int]);
    assert(b[t.1.0 as int] == a[t.1.0 as int]);
    assert(b[t.1.1 as int] == a[t.1.1 as int]);
}

/// Interning the terms of one triple adds only those terms.
proof fn lemma_new_triple_terms(
    t0: Seq<TermView>,
    before: Seq<TermView>,
    m1: Seq<TermView>,
    m2: Seq<TermView>,
    after: Seq<TermView>,
    triples: Seq<TripleView>,
    i: int,
)
    requires
        0 <= i < triples.len(),
        t0.is_prefix_of(before),
        before.is_prefix_of(m1),
        m1.is_prefix_of(m2),
        m2.is_prefix_of(after),
        forall|k: int| t0.len() <= k < before.len() ==> term_of_triples(triples, #[trigger] before[k]),
        forall|k: int| before.len() <= k < m1.len() ==> #[trigger] m1[k] == triples[i].subject,
        forall|k: int| m1.len() <= k < m2.len() ==> #[trigger] m2[k] == triples[i].predicate,
        forall|k: int| m2.len() <= k < after.len() ==> #[trigger] after[k] == triples[i].object,
    ensures
        forall|k: int| t0.len() <= k < after.len() ==> term_of_triples(triples, #[trigger] after[k]),
{
    assert forall|k: int| t0.len() <= k < after.len() implies term_of_triples(triples, #[trigger] after[k]) by {
        if k < before.len() {
            assert(after[k] == m2[k] && m2[k] == m1[k] && m1[k] == before[k]);
        } else if k < m1.len() {
            assert(after[k] == m2[k] && m2[k] == m1[k]);
            assert(after[k] == triples[i].subject);
        } else if k < m2.len() {
            assert(after[k] == m2[k]);
            assert(after[k] == triples[i].predicate);
        } else {
            assert(after[k] == triples[i].object);
        }
    }
}

/// Interns the canonical form of `key`.
fn put_term(index: &mut URIIndex, key: &Term) -> (id: URI)
    requires
        old(index).wf(),
        old(index)@.len() < u32::MAX,
    ensures
        final(index).wf(),
        old(index)@.is_prefix_of(final(index)@),
        final(index)@.len() <= old(index)@.len() + 1,
        forall|k: int| old(index)@.len() <= k < final(index)@.len() ==> #[trigger] final(index)@[k] == crate::common::canonical(key@),
        id < final(index)@.len(),
        final(index)@[id as int] == crate::common::canonical(key@),
{
    index.put(crate::common::canonical_term(key.duplicate()))
}

impl Reasoner {
    /// Interns the terms of each triple, and returns the identifiers of the
    /// triples.
    fn intern_triples(&mut self, triples: &Vec<Triple>) -> (trips: Vec<KeyedTriple>)
        requires
            old(self).wf(),
            old(self).terms().len() + 3 * triples@.len() < u32::MAX,
        ensures
            final(self).wf(),
            old(self).terms().is_prefix_of(final(self).terms()),
            final(self).terms().len() <= old(self).terms().len() + 3 * triples@.len(),
            forall|k: int|
                old(self).terms().len() <= k < final(self).terms().len() ==> term_of_triples(
                    triple_views(triples@),
                    #[trigger] final(self).terms()[k],
                ),
            forall|i: int| 0 <= i < triples@.len() ==> interned(final(self).terms(), #[trigger] triple_views(triples@)[i]),
            forall|t: KeyedTriple| #[trigger] trips@.contains(t) <==> loaded_triple(final(self).terms(), triple_views(triples@), t),
            ids_interned(trips@, final(self).terms().len() as int),
            final(self).vocab() == old(self).vocab(),
            final(self).input() == old(self).input(),
            final(self).base() == old(self).base(),
            final(self).error_list() == old(self).error_list(),
            final(self).seen() == old(self).seen(),
            final(self).options() == old(self).options(),
            final(self).output() == old(self).output(),
            final(self).last_round() == old(self).last_round(),
    {
        let ghost tvs = triple_views(triples@);
        let ghost t0 = self.index@;
        let mut trips: Vec<KeyedTriple> = Vec::new();
        let mut i: usize = 0;
        while i < triples.len()
            invariant
                tvs == triple_views(triples@),
                0 <= i <= triples@.len(),
                t0 == old(self).terms(),
                old(self).terms().len() + 3 * triples@.len() < u32::MAX,
                self.wf(),
                t0.is_prefix_of(self.index@),
                self.index@.len() <= t0.len() + 3 * i,
                self.vocab == old(self).vocab,
                self.input@ == old(self).input@,
                self.base@ == old(self).base@,
                self.errors@ == old(self).errors@,
                self.seen_diags@ == old(self).seen_diags@,
                self.options == old(self).options,
                self.output@ == old(self).output@,
                self.last_round@ == old(self).last_round@,
                forall|k: int| t0.len() <= k < self.index@.len() ==> term_of_triples(tvs, #[trigger] self.index@[k]),
                trips@.len() == i,
                forall|j: int| 0 <= j < i ==> stands_for(self.index@, #[trigger] trips@[j], tvs[j]),
            decreases triples@.len() - i,
        {
            let t = &triples[i];
            let ghost before = self.index@;
            proof {
                assert(tvs[i as int] == crate::common::canonical_triple(t@));
            }
            let s = put_term(&mut self.index, &t.subject);
            let ghost m1 = self.index@;
            let p = put_term(&mut self.index, &t.predicate);
            let ghost m2 = self.index@;
            let o = put_term(&mut self.index, &t.object);
            let ghost after = self.index@;
            proof {
                lemma_new_triple_terms(t0, before, m1, m2, after, tvs, i as int);
                assert(t0.is_prefix_of(after));
                assert forall|j: int| 0 <= j < i implies stands_for(after, #[trigger] trips@[j], tvs[j]) by {
                    lemma_stands_grow(before, after, trips@[j], tvs[j]);
                }
                assert forall|q: int| 0 <= q < vocab_ids(self.vocab).len() implies #[trigger] vocab_ids(self.vocab)[q]
                    < after.len() && after[vocab_ids(self.vocab)[q] as int] == TermView::NamedNode(vocab_iris()[q]) by {
                    assert(before[vocab_ids(self.vocab)[q] as int] == after[vocab_ids(self.vocab)[q] as int]);
                }
                assert(after[s as int] == m1[s as int]);
                assert(after[p as int] == m2[p as int]);
                assert(stands_for(after, (s, (p, o)), tvs[i as int]));
            }
            trips.push((s, (p, o)));
            i += 1;
        }
        proof {
            let terms = self.index@;
            self.index.lemma_distinct();
            assert forall|j: int| 0 <= j < trips@.len() implies (#[trigger] trips@[j]).0 < terms.len()
                && trips@[j].1.0 < terms.len() && trips@[j].1.1 < terms.len() by {
                assert(stands_for(terms, trips@[j], tvs[j]));
            }
            assert forall|t: KeyedTriple| #[trigger] trips@.contains(t) <==> loaded_triple(terms, tvs, t) by {
                if trips@.contains(t) {
                    let j = choose|j: int| 0 <= j < trips@.len() && trips@[j] == t;
                    assert(stands_for(terms, trips@[j], tvs[j]));
                }
                if loaded_triple(terms, tvs, t) {
                    let q = choose|q: int| 0 <= q < tvs.len() && stands_for(terms, t, #[trigger] tvs[q]);
                    let u = trips@[q];
                    assert(stands_for(terms, u, tvs[q]));
                    assert(terms[u.0 as int] == terms[t.0 as int]);
                    assert(terms[u.1.0 as int] == terms[t.1.0 as int]);
                    assert(terms[u.1.1 as int] == terms[t.1.1 as int]);
                    assert(u == t);
                }
            }
            assert forall|q: int| 0 <= q < triples@.len() implies interned(terms, #[trigger] triple_views(triples@)[q]) by {
                assert(stands_for(terms, trips@[q], tvs[q]));
            }
        }
        trips
    }

    /// Loads triples of terms, each term in its canonical form (a literal
    /// typed `xsd:string` as the simple literal of its value). Triples
    /// already in the input are not added again.
    pub fn load_triples(&mut self, triples: Vec<Triple>)
        requires
            old(self).wf(),
            old(self).terms().len() + 3 * triples@.len() < u32::MAX,
        ensures
            final(self).wf(),
            old(self).terms().is_prefix_of(final(self).terms()),
            final(self).terms().len() <= old(self).terms().len() + 3 * triples@.len(),
            forall|k: int|
                old(self).terms().len() <= k < final(self).terms().len() ==> term_of_triples(
                    triple_views(triples@),
                    #[trigger] final(self).terms()[k],
                ),
            forall|i: int| 0 <= i < triples@.len() ==> interned(final(self).terms(), #[trigger] triple_views(triples@)[i]),
            forall|t: KeyedTriple|
                #[trigger] final(self).input().contains(t) <==> (old(self).input().contains(t) || loaded_triple(
                    final(self).terms(),
                    triple_views(triples@),
                    t,
                )),
            forall|t: KeyedTriple|
                #[trigger] final(self).base().contains(t) <==> (old(self).base().contains(t) || (loaded_triple(
                    final(self).terms(),
                    triple_views(triples@),
                    t,
                ) && !old(self).input().contains(t))),
            final(self).vocab() == old(self).vocab(),
            final(self).error_list() == old(self).error_list(),
            final(self).seen() == old(self).seen(),
            final(self).options() == old(self).options(),
            final(self).output() == old(self).output(),
            final(self).last_round() == old(self).last_round(),
            exists|sorted_old: Seq<KeyedTriple>, added: Seq<KeyedTriple>|
                #[trigger] appends(
                    old(self).input(),
                    old(self).base(),
                    final(self).input(),
                    final(self).base(),
                    sorted_old,
                    added,
                ) && forall|t: KeyedTriple|
                    #[trigger] added.contains(t) <==> (loaded_triple(final(self).terms(), triple_views(triples@), t) && !old(self).input().contains(t)),
            (forall|t: KeyedTriple| #[trigger] loaded_triple(final(self).terms(), triple_views(triples@), t) ==> old(self).input().contains(t)) ==> final(self).base()
                == old(self).base(),
    {
        let trips = self.intern_triples(&triples);
        let ghost tr = trips@;
        self.add_new_triples(trips);
        proof {
            let (so, ad) = choose|so: Seq<KeyedTriple>, ad: Seq<KeyedTriple>|
                #[trigger] appends(old(self).input(), old(self).base(), self.input(), self.base(), so, ad) && forall|t: KeyedTriple|
                    #[trigger] ad.contains(t) <==> (tr.contains(t) && !old(self).input().contains(t));
            assert forall|t: KeyedTriple| #[trigger] ad.contains(t) <==> (loaded_triple(self.terms(), triple_views(triples@), t) && !old(self).input().contains(t)) by {
                assert(tr.contains(t) <==> loaded_triple(self.terms(), triple_views(triples@), t));
            }
            if forall|t: KeyedTriple| #[trigger] loaded_triple(self.terms(), triple_views(triples@), t) ==> old(self).input().contains(t) {
                if ad.len() > 0 {
                    assert(ad.contains(ad[0]));
                }
                assert(ad =~= Seq::<KeyedTriple>::empty());
                assert(self.base() =~= old(self).base());
            }
        }
    }
}

} // verus!

verus! {

/// The formats that files are loaded from.
#[derive(Clone, Copy, Debug, PartialEq, Eq, Structural)]
pub enum FileFormat {
    /// Turtle, for names ending in `.ttl`.
    Turtle,
    /// N-Triples, for names ending in `.n3`.
    NTriples,
}

/// `s` ends with `suffix`.
pub open spec fn ends_with(s: Seq<char>, suffix: Seq<char>) -> bool {
    s.len() >= suffix.len() && s.subrange(s.len() - suffix.len(), s.len() as int) == suffix
}

fn str_ends_with(s: &str, suffix: &str) -> (r: bool)
    ensures
        r == ends_with(s@, suffix@),
{
    let n = s.unicode_len();
    let m = suffix.unicode_len();
    if m > n {
        return false;
    }
    let mut i: usize = 0;
    while i < m
        invariant
            n == s@.len(),
            m == suffix@.len(),
            m <= n,
            0 <= i <= m,
            forall|k: int| 0 <= k < i ==> s@[n - m + k] == suffix@[k],
        decreases m - i,
    {
        if s.get_char(n - m + i) != suffix.get_char(i) {
            proof {
                assert(s@.subrange(n - m, n as int)[i as int] == s@[n - m + i]);
            }
            return false;
        }
        i += 1;
    }
    proof {
        assert(s@.subrange(n - m, n as int) =~= suffix@);
    }
    true
}

/// The format of a file by its name: Turtle for `.ttl`, N-Triples for
/// `.n3`; an `IO` error for any other name.
pub fn file_format(filename: &str) -> (r: Result<FileFormat, ReasonableError>)
    ensures
        match r {
            Ok(FileFormat::Turtle) => ends_with(filename@, ".ttl"@),
            Ok(FileFormat::NTriples) => !ends_with(filename@, ".ttl"@) && ends_with(filename@, ".n3"@),
            Err(e) => !ends_with(filename@, ".ttl"@) && !ends_with(filename@, ".n3"@) && e is IO,
        },
{
    if str_ends_with(filename, ".ttl") {
        Ok(FileFormat::Turtle)
    } else if str_ends_with(filename, ".n3") {
        Ok(FileFormat::NTriples)
    } else {
        Err(ReasonableError::IO(String::from_str("no parser for file (only ttl and n3)")))
    }
}

} // verus!

verus! {

/// The triple of named nodes of three IRIs.
pub open spec fn iri_view(iris: (Seq<char>, Seq<char>, Seq<char>)) -> TripleView {
    TripleView {
        subject: TermView::NamedNode(iris.0),
        predicate: TermView::NamedNode(iris.1),
        object: TermView::NamedNode(iris.2),
    }
}

/// `tv` is a triple of one of the loaded files.
pub open spec fn file_triple(loaded: Seq<Result<Vec<Triple>, ReasonableError>>, tv: TripleView) -> bool {
    exists|i: int, j: int|
        0 <= i < loaded.len() && (#[trigger] loaded[i]) is Ok && 0 <= j < loaded[i]->Ok_0@.len() && tv
            == crate::common::canonical_triple((#[trigger] loaded[i]->Ok_0@[j])@)
}

/// `tv` is one of the string triples whose strings are all IRIs.
pub open spec fn str_triple(iris: Seq<(Seq<char>, Seq<char>, Seq<char>)>, tv: TripleView) -> bool {
    exists|i: int| 0 <= i < iris.len() && valid_iris(#[trigger] iris[i]) && tv == iri_view(iris[i])
}

/// The seeds of every reasoner: `owl:Thing` and `owl:Nothing` are classes.
pub open spec fn seed(v: Vocab, t: KeyedTriple) -> bool {
    t == (v.owl_thing, (v.rdf_type, v.owl_class)) || t == (v.owl_nothing, (v.rdf_type, v.owl_class))
}

/// The input holds the seeds and a triple for each source triple, and
/// nothing else.
pub open spec fn holds_exactly(r: Reasoner, source: spec_fn(TripleView) -> bool) -> bool {
    &&& forall|t: KeyedTriple| #[trigger] seed(r.vocab(), t) ==> r.input().contains(t)
    &&& forall|t: KeyedTriple|
        #[trigger] r.input().contains(t) ==> seed(r.vocab(), t) || exists|tv: TripleView|
            #[trigger] source(tv) && stands_for(r.terms(), t, tv)
    &&& forall|tv: TripleView| #[trigger] source(tv) ==> exists|t: KeyedTriple| #[trigger] r.input().contains(t) && stands_for(r.terms(), t, tv)
}

/// `r` is what building gives from the files' read results `loaded`, the
/// string triples `strs` and the triples `given`: on success a fresh
/// reasoner holding exactly those triples (and the seeds), in its input and
/// its base alike; otherwise the
/// error of the first file that failed or, where every file was read, a
/// `ManagerError` for running out of identifiers; success is owed where
/// every file was read and the identifiers suffice.
pub open spec fn built(
    strs: Seq<(Seq<char>, Seq<char>, Seq<char>)>,
    given: Seq<TripleView>,
    loaded: Seq<Result<Vec<Triple>, ReasonableError>>,
    r: Result<Reasoner, ReasonableError>,
) -> bool {
    &&& match r {
        Ok(reasoner) => {
            &&& reasoner.wf()
            &&& forall|i: int| 0 <= i < loaded.len() ==> (#[trigger] loaded[i]) is Ok
            &&& holds_exactly(
                reasoner,
                |tv: TripleView| file_triple(loaded, tv) || str_triple(strs, tv) || given.contains(tv),
            )
            &&& reasoner.error_list().len() == 0
            &&& reasoner.output().len() == 0
            &&& forall|t: KeyedTriple| #[trigger] reasoner.base().contains(t) <==> reasoner.input().contains(t)
            &&& exists|chain: Seq<Reasoner>| #[trigger] load_chain(chain, loaded, strs, given) && chain[loaded.len() + 2int] == reasoner
        },
        Err(e) => (exists|i: int|
            0 <= i < loaded.len() && #[trigger] loaded[i] == Err::<Vec<Triple>, ReasonableError>(e) && forall|k: int|
                0 <= k < i ==> (#[trigger] loaded[k]) is Ok) || ((forall|i: int|
            0 <= i < loaded.len() ==> (#[trigger] loaded[i]) is Ok) && e is ManagerError && 31 + 3 * (batch_total(loaded)
            + strs.len() + given.len()) >= u32::MAX),
    }
    &&& (forall|i: int| 0 <= i < loaded.len() ==> (#[trigger] loaded[i]) is Ok) && 31 + 3 * (batch_total(loaded)
        + strs.len() + given.len()) < u32::MAX ==> r is Ok
}

/// Collects files and triples to load into a new reasoner.
pub struct ReasonerBuilder {
    files: Vec<String>,
    triples: Vec<Triple>,
    triples_str: Vec<(&'static str, &'static str, &'static str)>,
}

impl ReasonerBuilder {
    /// The files to load, in order.
    pub closed spec fn file_names(&self) -> Seq<Seq<char>> {
        self.files@.map_values(|s: String| s@)
    }

    /// The triples to load.
    pub closed spec fn triple_list(&self) -> Seq<TripleView> {
        triple_views(self.triples@)
    }

    /// The string triples to load.
    pub closed spec fn str_list(&self) -> Seq<(Seq<char>, Seq<char>, Seq<char>)> {
        str_triples(self.triples_str@)
    }

    /// A builder with nothing to load.
    pub fn new() -> (b: ReasonerBuilder)
        ensures
            b.file_names().len() == 0,
            b.triple_list().len() == 0,
            b.str_list().len() == 0,
    {
        let b = ReasonerBuilder { files: Vec::new(), triples: Vec::new(), triples_str: Vec::new() };
        proof {
            assert(b.file_names() =~= Seq::<Seq<char>>::empty());
        }
        b
    }

    /// Adds a file to load.
    pub fn with_file(self, path: String) -> (b: ReasonerBuilder)
        ensures
            b.file_names() == self.file_names().push(path@),
            b.triple_list() == self.triple_list(),
            b.str_list() == self.str_list(),
    {
        let mut b = self;
        let ghost before = b.files@;
        b.files.push(path);
        proof {
            assert(b.file_names() =~= before.map_values(|s: String| s@).push(path@));
        }
        b
    }

    /// Adds triples to load.
    pub fn with_triples(self, triples: Vec<Triple>) -> (b: ReasonerBuilder)
        ensures
            b.file_names() == self.file_names(),
            b.triple_list() == self.triple_list() + triple_views(triples@),
            b.str_list() == self.str_list(),
    {
        let mut b = self;
        let ghost before = b.triples@;
        let mut t = triples;
        let ghost added = t@;
        b.triples.append(&mut t);
        proof {
            assert(b.triple_list() =~= triple_views(before) + triple_views(added));
        }
        b
    }

    /// Adds string triples to load.
    pub fn with_triples_str(self, triples: Vec<(&'static str, &'static str, &'static str)>) -> (b: ReasonerBuilder)
        ensures
            b.file_names() == self.file_names(),
            b.triple_list() == self.triple_list(),
            b.str_list() == self.str_list() + str_triples(triples@),
    {
        let mut b = self;
        let ghost before = b.triples_str@;
        let mut t = triples;
        let ghost added = t@;
        b.triples_str.append(&mut t);
        proof {
            assert(b.str_list() =~= str_triples(before) + str_triples(added));
        }
        b
    }

    /// The files to load, in order.
    pub fn files(&self) -> (r: &[String])
        ensures
            r@.map_values(|s: String| s@) == self.file_names(),
    {
        self.files.as_slice()
    }
}

} // verus!

verus! {

/// Loading a batch of source triples keeps the input exactly the seeds and
/// the source triples.
proof fn lemma_holds_after_load(
    old_r: Reasoner,
    new_r: Reasoner,
    src: spec_fn(TripleView) -> bool,
    batch: spec_fn(TripleView) -> bool,
    src2: spec_fn(TripleView) -> bool,
)
    requires
        old_r.wf(),
        holds_exactly(old_r, src),
        new_r.vocab() == old_r.vocab(),
        old_r.terms().is_prefix_of(new_r.terms()),
        forall|t: KeyedTriple|
            #[trigger] new_r.input().contains(t) <==> (old_r.input().contains(t) || exists|tv: TripleView|
                #[trigger] batch(tv) && stands_for(new_r.terms(), t, tv)),
        forall|tv: TripleView| #[trigger] batch(tv) ==> exists|t: KeyedTriple| stands_for(new_r.terms(), t, tv),
        forall|tv: TripleView| #[trigger] src2(tv) <==> (src(tv) || batch(tv)),
    ensures
        holds_exactly(new_r, src2),
{
    assert forall|t: KeyedTriple| #[trigger] seed(new_r.vocab(), t) implies new_r.input().contains(t) by {
        assert(old_r.input().contains(t));
    }
    assert forall|t: KeyedTriple| #[trigger] new_r.input().contains(t) implies seed(new_r.vocab(), t) || exists|tv: TripleView|
        #[trigger] src2(tv) && stands_for(new_r.terms(), t, tv) by {
        if old_r.input().contains(t) {
            if !seed(old_r.vocab(), t) {
                let tv = choose|tv: TripleView| #[trigger] src(tv) && stands_for(old_r.terms(), t, tv);
                lemma_stands_grow(old_r.terms(), new_r.terms(), t, tv);
                assert(src2(tv));
            }
        } else {
            let tv = choose|tv: TripleView| #[trigger] batch(tv) && stands_for(new_r.terms(), t, tv);
            assert(src2(tv));
        }
    }
    assert forall|tv: TripleView| #[trigger] src2(tv) implies exists|t: KeyedTriple|
        #[trigger] new_r.input().contains(t) && stands_for(new_r.terms(), t, tv) by {
        if src(tv) {
            let t = choose|t: KeyedTriple| #[trigger] old_r.input().contains(t) && stands_for(old_r.terms(), t, tv);
            lemma_stands_grow(old_r.terms(), new_r.terms(), t, tv);
            assert(new_r.input().contains(t));
        } else {
            let t = choose|t: KeyedTriple| stands_for(new_r.terms(), t, tv);
            assert(new_r.input().contains(t));
        }
    }
}

/// The total number of triples of the loaded files.
pub open spec fn batch_total(loaded: Seq<Result<Vec<Triple>, ReasonableError>>) -> nat
    decreases loaded.len(),
{
    if loaded.len() == 0 {
        0
    } else {
        batch_total(loaded.drop_last()) + match loaded.last() {
            Ok(v) => v@.len(),
            Err(_) => 0,
        }
    }
}

proof fn lemma_batch_total_prefix(loaded: Seq<Result<Vec<Triple>, ReasonableError>>, k: int)
    requires
        0 <= k <= loaded.len(),
    ensures
        batch_total(loaded.take(k)) <= batch_total(loaded),
    decreases loaded.len(),
{
    if k < loaded.len() {
        lemma_batch_total_prefix(loaded.drop_last(), k);
        assert(loaded.drop_last().take(k) =~= loaded.take(k));
    } else {
        assert(loaded.take(k) =~= loaded);
    }
}

} // verus!

verus! {

/// Whether `n` more triples fit the identifier space of the reasoner.
pub(crate) fn room_for(r: &Reasoner, n: usize) -> (b: bool)
    requires
        r.wf(),
    ensures
        b == (r.terms().len() + 3 * n < u32::MAX),
{
    proof {
        r.index.lemma_distinct();
    }
    let cap = (u32::MAX as usize) - r.term_count();
    cap > 0 && n <= (cap - 1) / 3
}

impl ReasonerBuilder {
    /// Builds a reasoner: loads the triples of each file (`loaded` holds, in
    /// the order of the files, what reading and parsing each gave), then the
    /// string triples, then the triples. The first file that could not be
    /// read gives its error; so does running out of identifiers, as a
    /// `ManagerError`.
    pub fn build(self, loaded: Vec<Result<Vec<Triple>, ReasonableError>>) -> (r: Result<Reasoner, ReasonableError>)
        requires
            loaded@.len() == self.file_names().len(),
        ensures
            built(self.str_list(), self.triple_list(), loaded@, r),
    {
        let ghost strs = self.str_list();
        let ghost given = self.triple_list();
        let ReasonerBuilder { files: _, triples, triples_str } = self;
        let ghost all = loaded@;
        let n = loaded.len();
        let mut rest = loaded;
        let mut r = Reasoner::new();
        let ghost mut chain: Seq<Reasoner> = seq![r];
        proof {
            let src = |tv: TripleView| file_triple(all.take(0), tv);
            assert forall|t: KeyedTriple| #[trigger] r.input().contains(t) implies seed(r.vocab(), t) || exists|tv: TripleView|
                #[trigger] src(tv) && stands_for(r.terms(), t, tv) by {
                let k = choose|k: int| 0 <= k < r.input().len() && r.input()[k] == t;
            }
            assert(all.take(0) =~= Seq::<Result<Vec<Triple>, ReasonableError>>::empty());
        }
        let mut k: usize = 0;
        let mut full = false;
        while k < n
            invariant
                n == all.len(),
                all == loaded@,
                0 <= k <= n,
                rest@ == all.subrange(k as int, n as int),
                r.wf(),
                r.error_list().len() == 0,
                r.output().len() == 0,
                forall|i: int| 0 <= i < k ==> (#[trigger] all[i]) is Ok,
                !full ==> holds_exactly(r, |tv: TripleView| file_triple(all.take(k as int), tv)),
                !full ==> r.terms().len() <= 31 + 3 * batch_total(all.take(k as int)),
                !full ==> forall|t: KeyedTriple| #[trigger] r.base().contains(t) <==> r.input().contains(t),
                !full ==> chain.len() == k + 1 && is_new(chain[0]) && chain[k as int] == r && forall|j: int|
                    0 <= j < k ==> loaded_into(chain[j], #[trigger] chain[j + 1], triple_views(all[j]->Ok_0@)),
                full ==> 31 + 3 * batch_total(all.take(k as int)) >= u32::MAX,
            decreases n - k,
        {
            let item = rest.remove(0);
            proof {
                assert(item == all[k as int]);
                assert(all.take(k + 1).drop_last() =~= all.take(k as int));
                assert(all.take(k + 1).last() == all[k as int]);
            }
            match item {
                Err(e) => {
                    return Err(e);
                },
                Ok(ts) => {
                    proof {
                        lemma_batch_total_prefix(all, k + 1);
                        assert(batch_total(all.take(k + 1)) == batch_total(all.take(k as int)) + ts@.len());
                    }
                    if full {
                    } else if !room_for(&r, ts.len()) {
                        full = true;
                    } else {
                    let ghost old_r = r;
                    let ghost batch = triple_views(ts@);
                    r.load_triples(ts);
                    proof {
                        let src = |tv: TripleView| file_triple(all.take(k as int), tv);
                        let b = |tv: TripleView| batch.contains(tv);
                        let src2 = |tv: TripleView| file_triple(all.take(k + 1), tv);
                        assert forall|t: KeyedTriple|
                            #[trigger] r.input().contains(t) <==> (old_r.input().contains(t) || exists|tv: TripleView|
                                #[trigger] b(tv) && stands_for(r.terms(), t, tv)) by {
                            if loaded_triple(r.terms(), batch, t) {
                                let i = choose|i: int| 0 <= i < batch.len() && stands_for(r.terms(), t, #[trigger] batch[i]);
                                assert(b(batch[i]));
                            }
                            if exists|tv: TripleView| #[trigger] b(tv) && stands_for(r.terms(), t, tv) {
                                let tv = choose|tv: TripleView| #[trigger] b(tv) && stands_for(r.terms(), t, tv);
                                let i = choose|i: int| 0 <= i < batch.len() && batch[i] == tv;
                                assert(loaded_triple(r.terms(), batch, t));
                            }
                        }
                        assert forall|tv: TripleView| #[trigger] b(tv) implies exists|t: KeyedTriple| stands_for(r.terms(), t, tv) by {
                            let i = choose|i: int| 0 <= i < batch.len() && batch[i] == tv;
                            assert(interned(r.terms(), batch[i]));
                        }
                        assert forall|tv: TripleView| #[trigger] src2(tv) <==> (src(tv) || b(tv)) by {
                            let pre = all.take(k as int);
                            let pre2 = all.take(k + 1);
                            if src2(tv) {
                                let (i, j) = choose|i: int, j: int|
                                    0 <= i < pre2.len() && (#[trigger] pre2[i]) is Ok && 0 <= j < pre2[i]->Ok_0@.len() && tv
                                        == crate::common::canonical_triple((#[trigger] pre2[i]->Ok_0@[j])@);
                                if i < k {
                                    assert(pre[i] == pre2[i]);
                                    assert(file_triple(pre, tv));
                                } else {
                                    assert(pre2[i] == all[k as int]);
                                    assert(batch[j] == tv);
                                    assert(b(tv));
                                }
                            }
                            if src(tv) {
                                let (i, j) = choose|i: int, j: int|
                                    0 <= i < pre.len() && (#[trigger] pre[i]) is Ok && 0 <= j < pre[i]->Ok_0@.len() && tv
                                        == crate::common::canonical_triple((#[trigger] pre[i]->Ok_0@[j])@);
                                assert(pre2[i] == pre[i]);
                                assert(file_triple(pre2, tv));
                            }
                            if b(tv) {
                                let j = choose|j: int| 0 <= j < batch.len() && batch[j] == tv;
                                assert(pre2[k as int] == all[k as int]);
                                assert(file_triple(pre2, tv));
                            }
                        }
                        lemma_holds_after_load(old_r, r, src, b, src2);
                        assert(loaded_into(old_r, r, batch));
                        assert(all[k as int]->Ok_0@ == ts@);
                        let c0 = chain;
                        chain = chain.push(r);
                        assert forall|j: int| 0 <= j < k + 1 implies loaded_into(chain[j], #[trigger] chain[j + 1], triple_views(all[j]->Ok_0@)) by {
                            if j < k {
                                assert(chain[j] == c0[j] && chain[j + 1] == c0[j + 1]);
                            }
                        }
                    }
                    }
                },
            }
            k += 1;
        }
        proof {
            assert(all.take(n as int) =~= all);
        }
        if full {
            return Err(ReasonableError::ManagerError(String::from_str("too many terms")));
        }
        let ghost src_files = |tv: TripleView| file_triple(all, tv);
        if triples_str.len() > 0 {
            if !room_for(&r, triples_str.len()) {
                return Err(ReasonableError::ManagerError(String::from_str("too many terms")));
            }
            let ghost old_r = r;
            r.load_triples_str(triples_str);
            proof {
                let b = |tv: TripleView| str_triple(strs, tv);
                let src2 = |tv: TripleView| file_triple(all, tv) || str_triple(strs, tv);
                assert forall|t: KeyedTriple|
                    #[trigger] r.input().contains(t) <==> (old_r.input().contains(t) || exists|tv: TripleView|
                        #[trigger] b(tv) && stands_for(r.terms(), t, tv)) by {
                    if loaded_str(r.terms(), strs, t) {
                        let i = choose|i: int| 0 <= i < strs.len() && valid_iris(#[trigger] strs[i]) && names_triple(r.terms(), t, strs[i]);
                        assert(b(iri_view(strs[i])));
                        assert(stands_for(r.terms(), t, iri_view(strs[i])));
                    }
                    if exists|tv: TripleView| #[trigger] b(tv) && stands_for(r.terms(), t, tv) {
                        let tv = choose|tv: TripleView| #[trigger] b(tv) && stands_for(r.terms(), t, tv);
                        let i = choose|i: int| 0 <= i < strs.len() && valid_iris(#[trigger] strs[i]) && tv == iri_view(strs[i]);
                        assert(names_triple(r.terms(), t, strs[i]));
                        assert(loaded_str(r.terms(), strs, t));
                    }
                }
                assert forall|tv: TripleView| #[trigger] b(tv) implies exists|t: KeyedTriple| stands_for(r.terms(), t, tv) by {
                    let i = choose|i: int| 0 <= i < strs.len() && valid_iris(#[trigger] strs[i]) && tv == iri_view(strs[i]);
                    let t = choose|t: KeyedTriple| names_triple(r.terms(), t, strs[i]);
                    assert(stands_for(r.terms(), t, tv));
                }
                lemma_holds_after_load(old_r, r, src_files, b, src2);
                assert(loaded_str_into(old_r, r, strs));
                chain = chain.push(r);
            }
        } else {
            proof {
                chain = chain.push(r);
                let src2 = |tv: TripleView| file_triple(all, tv) || str_triple(strs, tv);
                assert forall|tv: TripleView| #[trigger] src2(tv) <==> src_files(tv) by {
                    if str_triple(strs, tv) {
                        let i = choose|i: int| 0 <= i < strs.len() && valid_iris(#[trigger] strs[i]) && tv == iri_view(strs[i]);
                    }
                }
                assert(holds_exactly(r, src2)) by {
                    assert forall|t: KeyedTriple| #[trigger] r.input().contains(t) implies seed(r.vocab(), t) || exists|tv: TripleView|
                        #[trigger] src2(tv) && stands_for(r.terms(), t, tv) by {
                        if !seed(r.vocab(), t) {
                            let tv = choose|tv: TripleView| #[trigger] src_files(tv) && stands_for(r.terms(), t, tv);
                            assert(src2(tv));
                        }
                    }
                    assert forall|tv: TripleView| #[trigger] src2(tv) implies exists|t: KeyedTriple|
                        #[trigger] r.input().contains(t) && stands_for(r.terms(), t, tv) by {
                        assert(src_files(tv));
                    }
                }
            }
        }
        let ghost src_fs = |tv: TripleView| file_triple(all, tv) || str_triple(strs, tv);
        let ghost src_all = |tv: TripleView| file_triple(all, tv) || str_triple(strs, tv) || given.contains(tv);
        if triples.len() > 0 {
            if !room_for(&r, triples.len()) {
                return Err(ReasonableError::ManagerError(String::from_str("too many terms")));
            }
            let ghost old_r = r;
            r.load_triples(triples);
            proof {
                let b = |tv: TripleView| given.contains(tv);
                assert forall|t: KeyedTriple|
                    #[trigger] r.input().contains(t) <==> (old_r.input().contains(t) || exists|tv: TripleView|
                        #[trigger] b(tv) && stands_for(r.terms(), t, tv)) by {
                    if loaded_triple(r.terms(), given, t) {
                        let i = choose|i: int| 0 <= i < given.len() && stands_for(r.terms(), t, #[trigger] given[i]);
                        assert(b(given[i]));
                    }
                    if exists|tv: TripleView| #[trigger] b(tv) && stands_for(r.terms(), t, tv) {
                        let tv = choose|tv: TripleView| #[trigger] b(tv) && stands_for(r.terms(), t, tv);
                        let i = choose|i: int| 0 <= i < given.len() && given[i] == tv;
                        assert(loaded_triple(r.terms(), given, t));
                    }
                }
                assert forall|tv: TripleView| #[trigger] b(tv) implies exists|t: KeyedTriple| stands_for(r.terms(), t, tv) by {
                    let i = choose|i: int| 0 <= i < given.len() && given[i] == tv;
                    assert(interned(r.terms(), given[i]));
                }
                lemma_holds_after_load(old_r, r, src_fs, b, src_all);
                assert(loaded_into(old_r, r, given));
                chain = chain.push(r);
            }
        } else {
            proof {
                chain = chain.push(r);
                assert(holds_exactly(r, src_all)) by {
                    assert forall|t: KeyedTriple| #[trigger] r.input().contains(t) implies seed(r.vocab(), t) || exists|tv: TripleView|
                        #[trigger] src_all(tv) && stands_for(r.terms(), t, tv) by {
                        if !seed(r.vocab(), t) {
                            let tv = choose|tv: TripleView| #[trigger] src_fs(tv) && stands_for(r.terms(), t, tv);
                            assert(src_all(tv));
                        }
                    }
                    assert forall|tv: TripleView| #[trigger] src_all(tv) implies exists|t: KeyedTriple|
                        #[trigger] r.input().contains(t) && stands_for(r.terms(), t, tv) by {
                        assert(src_fs(tv));
                    }
                }
            }
        }
        proof {
            assert(load_chain(chain, all, strs, given) && chain[n + 2] == r);
        }
        Ok(r)
    }
}

} // verus!
