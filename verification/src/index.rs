//! Interning of RDF terms into dense integer identifiers.
use vstd::prelude::*;
use std::collections::HashMap;
use crate::common::{Literal, Term, TermView, term_eq};
use crate::error::ReasonableError;
use crate::relation::URI;

verus! {

broadcast use vstd::std_specs::hash::group_hash_axioms;

/// FarmHash's portable 64-bit fingerprint of the UTF-8 bytes of a string.
pub uninterp spec fn farmhash_fingerprint(s: Seq<char>) -> u64;

/// `farmhash::fingerprint64` of the string's bytes, named `farmhash_fingerprint`.
#[verifier::external_body]
fn fingerprint(s: &str) -> (h: u64)
    ensures
        h == farmhash_fingerprint(s@),
{
    farmhash::fingerprint64(s.as_bytes())
}

/// Whether oxrdf accepts the string as an IRI (`NamedNode::new`).
pub uninterp spec fn oxrdf_valid_iri(s: Seq<char>) -> bool;

/// `oxrdf::NamedNode::new(s).is_ok()`, named `oxrdf_valid_iri`.
#[verifier::external_body]
fn valid_iri(s: &str) -> (b: bool)
    ensures
        b == oxrdf_valid_iri(s@),
{
    oxrdf::NamedNode::new(s).is_ok()
}

/// The string of a term that its bucket is chosen by.
pub open spec fn term_key_string(t: TermView) -> Seq<char> {
    match t {
        TermView::NamedNode(i) => i,
        TermView::BlankNode(b) => b,
        TermView::Simple(v) => v,
        TermView::LanguageTagged(v, _) => v,
        TermView::Typed(v, _) => v,
    }
}

/// The bucket of a term.
pub open spec fn term_key(t: TermView) -> u64 {
    farmhash_fingerprint(term_key_string(t))
}

fn key_str(t: &Term) -> (s: &str)
    ensures
        s@ == term_key_string(t@),
{
    match t {
        Term::NamedNode(i) => i.as_str(),
        Term::BlankNode(b) => b.as_str(),
        Term::Literal(Literal::Simple(v)) => v.as_str(),
        Term::Literal(Literal::LanguageTagged(v, _)) => v.as_str(),
        Term::Literal(Literal::Typed(v, _)) => v.as_str(),
    }
}

/// The term that identifier 0 is reserved for.
pub open spec fn sentinel() -> TermView {
    TermView::NamedNode("urn:_"@)
}

/// A bijection between terms and the identifiers `0 .. len`.
pub struct URIIndex {
    buckets: HashMap<u64, Vec<URI>>,
    rev: Vec<Term>,
}

impl View for URIIndex {
    type V = Seq<TermView>;

    closed spec fn view(&self) -> Seq<TermView> {
        self.rev@.map_values(|t: Term| t@)
    }
}

impl URIIndex {
    /// The index holds each term once, identifier 0 is the sentinel `urn:_`,
    /// and every identifier fits a `URI`.
    pub closed spec fn wf(&self) -> bool {
        &&& self@.len() >= 1
        &&& self@.len() <= u32::MAX
        &&& self@[0] == sentinel()
        &&& forall|i: int, j: int| 0 <= i < j < self@.len() ==> self@[i] != self@[j]
        &&& forall|i: int|
            #![trigger self.rev@[i]]
            0 <= i < self.rev@.len() ==> self.buckets@.contains_key(term_key(self.rev@[i]@))
                && self.buckets@[term_key(self.rev@[i]@)]@.contains(i as URI)
        &&& forall|k: u64, j: int|
            #![trigger self.buckets@[k]@[j]]
            self.buckets@.contains_key(k) && 0 <= j < self.buckets@[k]@.len() ==> {
                &&& self.buckets@[k]@[j] < self.rev@.len()
                &&& term_key(self.rev@[self.buckets@[k]@[j] as int]@) == k
            }
    }

    /// An index holding only the sentinel term at identifier 0.
    pub fn new() -> (r: URIIndex)
        ensures
            r.wf(),
            r@ == seq![sentinel()],
    {
        let sentinel_term = Term::NamedNode(String::from_str("urn:_"));
        let h = fingerprint(key_str(&sentinel_term));
        let mut rev: Vec<Term> = Vec::with_capacity(1024);
        rev.push(sentinel_term);
        let mut buckets: HashMap<u64, Vec<URI>> = HashMap::new();
        let mut b: Vec<URI> = Vec::new();
        b.push(0);
        buckets.insert(h, b);
        let r = URIIndex { buckets, rev };
        proof {
            assert(r@ =~= seq![sentinel()]);
            assert(r.buckets@[h]@ =~= seq![0u32]);
            assert(r.buckets@[h]@[0] == 0u32);
            assert(r.buckets@[h]@.contains(0u32));
            assert(r@[0] == sentinel());
            assert(term_key(r.rev@[0]@) == h);
        }
        r
    }

    /// A well-formed index holds each term once, and identifier 0 is the
    /// sentinel.
    pub proof fn lemma_distinct(&self)
        requires
            self.wf(),
        ensures
            forall|i: int, j: int| 0 <= i < self@.len() && 0 <= j < self@.len() && i != j ==> self@[i] != self@[j],
            1 <= self@.len() <= u32::MAX,
            self@[0] == sentinel(),
    {
        assert forall|i: int, j: int| 0 <= i < self@.len() && 0 <= j < self@.len() && i != j implies self@[i] != self@[j] by {
            if j < i {
                assert(self@[j] != self@[i]);
            }
        }
    }

    /// The number of identifiers handed out.
    pub fn len(&self) -> (n: usize)
        ensures
            n == self@.len(),
    {
        self.rev.len()
    }

    /// The identifier of `key`, interning it first if it is new.
    pub fn put(&mut self, key: Term) -> (id: URI)
        requires
            old(self).wf(),
            old(self)@.len() < u32::MAX,
        ensures
            final(self).wf(),
            final(self)@ == (if old(self)@.contains(key@) {
                old(self)@
            } else {
                old(self)@.push(key@)
            }),
            id < final(self)@.len(),
            final(self)@[id as int] == key@,
    {
        let h = fingerprint(key_str(&key));
        let found = self.buckets.get(&h);
        let mut bucket: Vec<URI> = Vec::new();
        match found {
            Some(ids) => {
                let mut i: usize = 0;
                while i < ids.len()
                    invariant
                        self.wf(),
                        self.buckets@.contains_key(h),
                        *ids == self.buckets@[h],
                        h == term_key(key@),
                        0 <= i <= ids@.len(),
                        bucket@ == ids@.take(i as int),
                        forall|j: int| 0 <= j < i ==> self@[ids@[j] as int] != key@,
                    decreases ids@.len() - i,
                {
                    let id = ids[i];
                    proof {
                        assert(self.buckets@[h]@[i as int] == id);
                    }
                    if term_eq(&self.rev[id as usize], &key) {
                        proof {
                            assert(self@.contains(key@)) by {
                                assert(self@[id as int] == key@);
                            }
                        }
                        return id;
                    }
                    bucket.push(id);
                    proof {
                        assert(bucket@ =~= ids@.take(i + 1));
                    }
                    i += 1;
                }
                proof {
                    assert(bucket@ =~= ids@);
                }
            },
            None => {},
        }
        proof {
            assert(!self@.contains(key@)) by {
                if self@.contains(key@) {
                    let j = choose|j: int| 0 <= j < self@.len() && self@[j] == key@;
                    assert(self.rev@[j]@ == key@);
                    assert(self.buckets@[h]@.contains(j as URI));
                    let k = choose|k: int| 0 <= k < self.buckets@[h]@.len() && self.buckets@[h]@[k] == j as URI;
                    assert(bucket@[k] == j as URI);
                }
            }
        }
        let ghost old_self = *self;
        let id = self.rev.len() as URI;
        self.rev.push(key);
        bucket.push(id);
        self.buckets.insert(h, bucket);
        proof {
            assert(self@ =~= old_self@.push(key@));
            assert forall|i: int| #![trigger self.rev@[i]] 0 <= i < self.rev@.len() implies
                self.buckets@.contains_key(term_key(self.rev@[i]@))
                && self.buckets@[term_key(self.rev@[i]@)]@.contains(i as URI) by {
                if i < old_self.rev@.len() {
                    assert(old_self.rev@[i] == self.rev@[i]);
                    if term_key(self.rev@[i]@) == h {
                        let k = choose|k: int| 0 <= k < old_self.buckets@[h]@.len() && old_self.buckets@[h]@[k] == i as URI;
                        assert(bucket@[k] == i as URI);
                    }
                } else {
                    assert(bucket@[bucket@.len() - 1] == id);
                }
            }
            assert forall|k: u64, j: int|
                self.buckets@.contains_key(k) && 0 <= j < self.buckets@[k]@.len() implies {
                    &&& self.buckets@[k]@[j] < self.rev@.len()
                    &&& term_key(self.rev@[self.buckets@[k]@[j] as int]@) == k
                } by {
                if k == h {
                    if j < bucket@.len() - 1 {
                        assert(old_self.buckets@[h]@[j] == bucket@[j]);
                    }
                } else {
                    assert(old_self.buckets@[k]@[j] == self.buckets@[k]@[j]);
                }
            }
        }
        id
    }

    /// The identifier of the named node with IRI `key`, interning it first if
    /// it is new; an `IriParse` error if oxrdf does not accept the IRI.
    pub fn put_str(&mut self, key: &str) -> (r: Result<URI, ReasonableError>)
        requires
            old(self).wf(),
            old(self)@.len() < u32::MAX,
        ensures
            final(self).wf(),
            match r {
                Ok(id) => {
                    &&& oxrdf_valid_iri(key@)
                    &&& final(self)@ == (if old(self)@.contains(TermView::NamedNode(key@)) {
                        old(self)@
                    } else {
                        old(self)@.push(TermView::NamedNode(key@))
                    })
                    &&& id < final(self)@.len()
                    &&& final(self)@[id as int] == TermView::NamedNode(key@)
                },
                Err(e) => !oxrdf_valid_iri(key@) && e is IriParse && final(self)@ == old(self)@,
            },
    {
        if !valid_iri(key) {
            return Err(ReasonableError::IriParse(String::from_str(key)));
        }
        Ok(self.put(Term::NamedNode(String::from_str(key))))
    }

    /// The term with identifier `key`, if there is one.
    pub fn get(&self, key: URI) -> (r: Option<&Term>)
        ensures
            match r {
                Some(t) => key < self@.len() && t@ == self@[key as int],
                None => key >= self@.len(),
            },
    {
        if (key as usize) < self.rev.len() {
            Some(&self.rev[key as usize])
        } else {
            None
        }
    }
}

} // verus!
