//! RDF terms and triples as plain values.
use vstd::prelude::*;
use crate::error::ReasonableError;

verus! {

/// An RDF literal, in the canonical form of its content.
#[derive(Clone, Debug)]
pub enum Literal {
    /// A plain string literal (datatype `xsd:string`).
    Simple(String),
    /// A language-tagged string: value and language tag.
    LanguageTagged(String, String),
    /// A typed literal: value and datatype IRI (never `xsd:string`).
    Typed(String, String),
}

/// An RDF term.
#[derive(Clone, Debug)]
pub enum Term {
    /// A named node, by its IRI.
    NamedNode(String),
    /// A blank node, by its identifier.
    BlankNode(String),
    /// A literal.
    Literal(Literal),
}

/// The abstract content of a term.
pub enum TermView {
    NamedNode(Seq<char>),
    BlankNode(Seq<char>),
    Simple(Seq<char>),
    LanguageTagged(Seq<char>, Seq<char>),
    Typed(Seq<char>, Seq<char>),
}

impl View for Term {
    type V = TermView;

    open spec fn view(&self) -> TermView {
        match self {
            Term::NamedNode(i) => TermView::NamedNode(i@),
            Term::BlankNode(b) => TermView::BlankNode(b@),
            Term::Literal(Literal::Simple(v)) => TermView::Simple(v@),
            Term::Literal(Literal::LanguageTagged(v, l)) => TermView::LanguageTagged(v@, l@),
            Term::Literal(Literal::Typed(v, d)) => TermView::Typed(v@, d@),
        }
    }
}

/// Whether the term is a literal.
pub open spec fn is_literal(t: TermView) -> bool {
    !(t is NamedNode) && !(t is BlankNode)
}

/// A triple of terms. Triples built by `make_triple` have a subject that is
/// not a literal and a named-node predicate.
#[derive(Clone, Debug)]
pub struct Triple {
    pub subject: Term,
    pub predicate: Term,
    pub object: Term,
}

impl Triple {
    /// A copy of the triple.
    pub fn duplicate(&self) -> (r: Triple)
        ensures
            r@ == self@,
    {
        Triple {
            subject: self.subject.duplicate(),
            predicate: self.predicate.duplicate(),
            object: self.object.duplicate(),
        }
    }
}

/// The abstract content of a triple.
pub struct TripleView {
    pub subject: TermView,
    pub predicate: TermView,
    pub object: TermView,
}

impl View for Triple {
    type V = TripleView;

    open spec fn view(&self) -> TripleView {
        TripleView { subject: self.subject@, predicate: self.predicate@, object: self.object@ }
    }
}

/// A well-formed RDF triple: its subject is not a literal and its predicate is
/// a named node.
pub open spec fn valid_triple(s: TermView, p: TermView) -> bool {
    !is_literal(s) && p is NamedNode
}

fn string_eq(a: &String, b: &String) -> (r: bool)
    ensures
        r == (a@ == b@),
{
    *a == *b
}

/// Whether two terms are the same term.
pub fn term_eq(a: &Term, b: &Term) -> (r: bool)
    ensures
        r == (a@ == b@),
{
    match (a, b) {
        (Term::NamedNode(x), Term::NamedNode(y)) => string_eq(x, y),
        (Term::BlankNode(x), Term::BlankNode(y)) => string_eq(x, y),
        (Term::Literal(Literal::Simple(x)), Term::Literal(Literal::Simple(y))) => string_eq(x, y),
        (
            Term::Literal(Literal::LanguageTagged(x, l)),
            Term::Literal(Literal::LanguageTagged(y, m)),
        ) => string_eq(x, y) && string_eq(l, m),
        (Term::Literal(Literal::Typed(x, d)), Term::Literal(Literal::Typed(y, e))) => string_eq(
            x,
            y,
        ) && string_eq(d, e),
        _ => false,
    }
}

/// The IRI of `xsd:string`.
pub open spec fn xsd_string() -> Seq<char> {
    "http://www.w3.org/2001/XMLSchema#string"@
}

/// The canonical form of a term, as oxrdf keeps literals: a literal typed
/// `xsd:string` is the simple literal of its value.
pub open spec fn canonical(t: TermView) -> TermView {
    match t {
        TermView::Typed(v, d) => if d == xsd_string() {
            TermView::Simple(v)
        } else {
            t
        },
        _ => t,
    }
}

impl Literal {
    /// The literal of `value` typed `datatype`, as oxrdf's
    /// `Literal::new_typed_literal` builds it: simple where the datatype is
    /// `xsd:string`.
    pub fn new_typed(value: String, datatype: String) -> (r: Literal)
        ensures
            Term::Literal(r)@ == canonical(TermView::Typed(value@, datatype@)),
    {
        let xsd = "http://www.w3.org/2001/XMLSchema#string";
        proof {
            reveal_strlit("http://www.w3.org/2001/XMLSchema#string");
        }
        if crate::diagnostics::str_eq(datatype.as_str(), xsd) {
            Literal::Simple(value)
        } else {
            Literal::Typed(value, datatype)
        }
    }
}

/// The triple of the canonical forms of the terms of `tv`.
pub open spec fn canonical_triple(tv: TripleView) -> TripleView {
    TripleView { subject: canonical(tv.subject), predicate: canonical(tv.predicate), object: canonical(tv.object) }
}

/// The canonical form of a term.
pub(crate) fn canonical_term(t: Term) -> (r: Term)
    ensures
        r@ == canonical(t@),
{
    match t {
        Term::Literal(Literal::Typed(v, d)) => Term::Literal(Literal::new_typed(v, d)),
        other => other,
    }
}

/// Builds a triple, refusing a literal subject or a predicate that is not a
/// named node; the object is kept in canonical form (`canonical`).
pub fn make_triple(s: Term, p: Term, o: Term) -> (r: Result<Triple, ReasonableError>)
    ensures
        match r {
            Ok(t) => valid_triple(s@, p@) && t@ == (TripleView {
                subject: s@,
                predicate: p@,
                object: canonical(o@),
            }),
            Err(e) => !valid_triple(s@, p@) && e is ManagerError && (if is_literal(s@) {
                e->ManagerError_0@ == "Cannot have literal as subject"@
            } else {
                e->ManagerError_0@ == "Must have named node as predicate"@
            }),
        },
{
    match s {
        Term::Literal(_) => {
            return Err(ReasonableError::ManagerError(String::from_str("Cannot have literal as subject")));
        },
        _ => {},
    }
    match p {
        Term::NamedNode(_) => {},
        _ => {
            return Err(ReasonableError::ManagerError(String::from_str("Must have named node as predicate")));
        },
    }
    Ok(Triple { subject: s, predicate: p, object: canonical_term(o) })
}

/// The hexadecimal digit of `d` (`0 <= d < 16`), in upper case.
pub open spec fn hex_digit(d: int) -> char {
    if d < 10 {
        (48 + d) as char
    } else {
        (55 + d) as char
    }
}

/// How oxrdf writes one character of a quoted string (`print_quoted_str`):
/// backspace, tab, line feed, form feed, carriage return, quote and
/// backslash as two-character escapes, the other control characters as
/// `\u00XX`, and every other character as itself.
pub open spec fn escaped_char(c: char) -> Seq<char> {
    if c == '\u{08}' {
        seq!['\\', 'b']
    } else if c == '\t' {
        seq!['\\', 't']
    } else if c == '\n' {
        seq!['\\', 'n']
    } else if c == '\u{0C}' {
        seq!['\\', 'f']
    } else if c == '\r' {
        seq!['\\', 'r']
    } else if c == '"' {
        seq!['\\', '"']
    } else if c == '\\' {
        seq!['\\', '\\']
    } else if (c as int) <= 0x1F || (c as int) == 0x7F {
        seq!['\\', 'u', '0', '0', hex_digit((c as int) / 16), hex_digit((c as int) % 16)]
    } else {
        seq![c]
    }
}

/// The characters of `s`, each written as oxrdf writes it in a quoted string.
pub open spec fn escaped_str(s: Seq<char>) -> Seq<char>
    decreases s.len(),
{
    if s.len() == 0 {
        Seq::empty()
    } else {
        escaped_str(s.drop_last()) + escaped_char(s.last())
    }
}

/// What oxrdf prints for a string literal with the given value: the value in
/// double quotes, escaped as `escaped_str` says.
pub open spec fn oxrdf_quoted(value: Seq<char>) -> Seq<char> {
    seq!['"'] + escaped_str(value) + seq!['"']
}

/// The printed form of a simple literal with value `v`, as oxrdf's `Literal`
/// displays it (`Literal::new_simple_literal(v).to_string()`, which is
/// `print_quoted_str`): the value quoted and escaped, as `oxrdf_quoted` says.
#[verifier::external_body]
fn quote_literal(v: &str) -> (s: String)
    ensures
        s@ == oxrdf_quoted(v@),
{
    oxrdf::Literal::new_simple_literal(v).to_string()
}

/// The N-Triples-style printed form of a term, as oxrdf prints it.
pub open spec fn term_display(t: TermView) -> Seq<char> {
    match t {
        TermView::NamedNode(i) => "<"@ + i + ">"@,
        TermView::BlankNode(b) => "_:"@ + b,
        TermView::Simple(v) => oxrdf_quoted(v),
        TermView::LanguageTagged(v, l) => oxrdf_quoted(v) + "@"@ + l,
        TermView::Typed(v, d) => oxrdf_quoted(v) + "^^<"@ + d + ">"@,
    }
}

impl Term {
    /// A copy of the term.
    pub fn duplicate(&self) -> (r: Term)
        ensures
            r@ == self@,
    {
        match self {
            Term::NamedNode(i) => Term::NamedNode(i.clone()),
            Term::BlankNode(b) => Term::BlankNode(b.clone()),
            Term::Literal(Literal::Simple(v)) => Term::Literal(Literal::Simple(v.clone())),
            Term::Literal(Literal::LanguageTagged(v, l)) => Term::Literal(
                Literal::LanguageTagged(v.clone(), l.clone()),
            ),
            Term::Literal(Literal::Typed(v, d)) => Term::Literal(Literal::Typed(v.clone(), d.clone())),
        }
    }

    /// The printed form of the term: `<iri>`, `_:id`, or a quoted literal
    /// followed by `@lang` or `^^<datatype>`.
    pub fn to_string(&self) -> (s: String)
        ensures
            s@ == term_display(self@),
    {
        match self {
            Term::NamedNode(i) => {
                let mut s = String::from_str("<");
                s.append(i.as_str());
                s.append(">");
                s
            },
            Term::BlankNode(b) => {
                let mut s = String::from_str("_:");
                s.append(b.as_str());
                s
            },
            Term::Literal(Literal::Simple(v)) => quote_literal(v.as_str()),
            Term::Literal(Literal::LanguageTagged(v, l)) => {
                let mut s = quote_literal(v.as_str());
                s.append("@");
                s.append(l.as_str());
                s
            },
            Term::Literal(Literal::Typed(v, d)) => {
                let mut s = quote_literal(v.as_str());
                s.append("^^<");
                s.append(d.as_str());
                s.append(">");
                s
            },
        }
    }
}


/// The predicates whose objects are usually literals.
pub open spec fn literal_predicates() -> Seq<Seq<char>> {
    seq![
        "http://www.w3.org/2000/01/rdf-schema#label"@,
        "http://www.w3.org/2000/01/rdf-schema#comment"@,
        "http://schema.org#email"@,
        "http://schema.org#name"@,
        "http://www.w3.org/2004/02/skos/core#definition"@,
        "http://purl.org/dc/elements/1.1/title"@,
    ]
}

/// Whether the objects of `pred` are usually literals: `rdfs:label`,
/// `rdfs:comment`, `schema:email`, `schema:name`, `skos:definition` or
/// `dc:title`.
pub fn suggests_literal(pred: &str) -> (r: bool)
    ensures
        r == literal_predicates().contains(pred@),
{
    let preds = [
        "http://www.w3.org/2000/01/rdf-schema#label",
        "http://www.w3.org/2000/01/rdf-schema#comment",
        "http://schema.org#email",
        "http://schema.org#name",
        "http://www.w3.org/2004/02/skos/core#definition",
        "http://purl.org/dc/elements/1.1/title",
    ];
    proof {
        reveal_strlit("http://www.w3.org/2000/01/rdf-schema#label");
        reveal_strlit("http://www.w3.org/2000/01/rdf-schema#comment");
        reveal_strlit("http://schema.org#email");
        reveal_strlit("http://schema.org#name");
        reveal_strlit("http://www.w3.org/2004/02/skos/core#definition");
        reveal_strlit("http://purl.org/dc/elements/1.1/title");
        assert(preds@.map_values(|p: &str| p@) =~= literal_predicates());
    }
    let mut i: usize = 0;
    while i < 6
        invariant
            0 <= i <= 6,
            preds@.len() == 6,
            preds@.map_values(|p: &str| p@) == literal_predicates(),
            forall|j: int| 0 <= j < i ==> literal_predicates()[j] != pred@,
        decreases 6 - i,
    {
        if crate::diagnostics::str_eq(preds[i], pred) {
            assert(literal_predicates()[i as int] == pred@);
            return true;
        }
        i += 1;
    }
    false
}

/// `s` with each line feed written as the two characters `\n`.
pub open spec fn newlines_escaped(s: Seq<char>) -> Seq<char>
    decreases s.len(),
{
    if s.len() == 0 {
        Seq::empty()
    } else if s.last() == '\n' {
        newlines_escaped(s.drop_last()) + seq!['\\', 'n']
    } else {
        newlines_escaped(s.drop_last()).push(s.last())
    }
}

/// Escapes the line feeds of a literal's text as `\n`.
pub fn escape_literal(literal: &str) -> (r: String)
    ensures
        r@ == newlines_escaped(literal@),
{
    let n = literal.unicode_len();
    let mut r = String::new();
    let mut i: usize = 0;
    while i < n
        invariant
            n == literal@.len(),
            0 <= i <= n,
            r@ == newlines_escaped(literal@.subrange(0, i as int)),
        decreases n - i,
    {
        let c = literal.get_char(i);
        if c == '\n' {
            r.append("\\n");
            proof {
                reveal_strlit("\\n");
                assert("\\n"@ =~= seq!['\\', 'n']);
            }
        } else {
            let one = literal.substring_char(i, i + 1);
            r.append(one);
            proof {
                assert(one@ =~= seq![c]);
            }
        }
        proof {
            let t = literal@.subrange(0, i + 1);
            assert(t.drop_last() =~= literal@.subrange(0, i as int));
            assert(t.last() == c);
        }
        i += 1;
    }
    proof {
        assert(literal@.subrange(0, n as int) =~= literal@);
    }
    r
}

} // verus!
