//! Reading Turtle and N-Triples documents into triples of terms.
use vstd::prelude::*;
use rio_api::parser::TriplesParser;
use rio_turtle::{NTriplesParser, TurtleError, TurtleParser};
use crate::common::{Literal, Term, TermView, TripleView, xsd_string};
use crate::error::ReasonableError;
use crate::reasoner::{triple_views, file_format, FileFormat, ends_with, Reasoner, ReasonerBuilder, loaded_into, room_for, built};

verus! {

/// The parts of a parsed triple as rio prints them: subject, predicate and
/// object in N-Triples syntax.
pub type Printed = (Seq<char>, Seq<char>, Seq<char>);

/// What rio_turtle's `TurtleParser` (no base IRI) makes of a document: for
/// each triple it reports, in order, its subject, predicate and object as rio
/// prints them (`Display`); or the message of the error it stops on.
pub uninterp spec fn turtle_doc(doc: Seq<u8>) -> Result<Seq<Printed>, Seq<char>>;

/// What rio_turtle's `NTriplesParser` makes of a document: for each triple
/// it reports, in order, its subject, predicate and object as rio prints
/// them (`Display`); or the message of the error it stops on.
pub uninterp spec fn ntriples_doc(doc: Seq<u8>) -> Result<Seq<Printed>, Seq<char>>;

/// The views of printed triples.
pub open spec fn printed_views(v: Seq<(String, String, String)>) -> Seq<Printed> {
    v.map_values(|t: (String, String, String)| (t.0@, t.1@, t.2@))
}

/// Parses a Turtle document with rio_turtle's `TurtleParser` (no base IRI)
/// and prints the parts of each triple it reports; the contract names the
/// outcome `turtle_doc(doc)`.
#[verifier::external_body]
fn rio_turtle(doc: &[u8]) -> (r: Result<Vec<(String, String, String)>, String>)
    ensures
        match r {
            Ok(v) => turtle_doc(doc@) == Ok::<Seq<Printed>, Seq<char>>(printed_views(v@)),
            Err(m) => turtle_doc(doc@) == Err::<Seq<Printed>, Seq<char>>(m@),
        },
{
    let mut out = Vec::new();
    let res = TurtleParser::new(doc, None).parse_all(&mut |t| {
        out.push((t.subject.to_string(), t.predicate.to_string(), t.object.to_string()));
        Ok(()) as Result<(), TurtleError>
    });
    res.map(|_| out).map_err(|e| e.to_string())
}

/// Parses an N-Triples document with rio_turtle's `NTriplesParser` and
/// prints the parts of each triple it reports; the contract names the
/// outcome `ntriples_doc(doc)`.
#[verifier::external_body]
fn rio_ntriples(doc: &[u8]) -> (r: Result<Vec<(String, String, String)>, String>)
    ensures
        match r {
            Ok(v) => ntriples_doc(doc@) == Ok::<Seq<Printed>, Seq<char>>(printed_views(v@)),
            Err(m) => ntriples_doc(doc@) == Err::<Seq<Printed>, Seq<char>>(m@),
        },
{
    let mut out = Vec::new();
    let res = NTriplesParser::new(doc).parse_all(&mut |t| {
        out.push((t.subject.to_string(), t.predicate.to_string(), t.object.to_string()));
        Ok(()) as Result<(), TurtleError>
    });
    res.map(|_| out).map_err(|e| e.to_string())
}

/// The character that an escape `\c` in a printed string stands for.
pub open spec fn unescaped(c: char) -> char {
    if c == 'n' {
        '\n'
    } else if c == 'r' {
        '\r'
    } else {
        c
    }
}

/// Reads a quoted string from position `i` (just after the opening quote),
/// with `acc` read so far: the value and the position after the closing
/// quote, or `None` when the quote is not closed.
pub open spec fn unquote(s: Seq<char>, i: int, acc: Seq<char>) -> Option<(Seq<char>, int)>
    decreases s.len() - i,
{
    if i < 0 || i >= s.len() {
        None
    } else if s[i] == '"' {
        Some((acc, i + 1))
    } else if s[i] == '\\' {
        if i + 1 >= s.len() {
            None
        } else {
            unquote(s, i + 2, acc.push(unescaped(s[i + 1])))
        }
    } else {
        unquote(s, i + 1, acc.push(s[i]))
    }
}

/// The literal of value `v` whose printed form continues with `rest`: a
/// simple literal, a language-tagged one (`@lang`) or a typed one
/// (`^^<datatype>`, simple where the datatype is `xsd:string`).
pub open spec fn literal_of(v: Seq<char>, rest: Seq<char>) -> Option<TermView> {
    if rest.len() == 0 {
        Some(TermView::Simple(v))
    } else if rest[0] == '@' {
        Some(TermView::LanguageTagged(v, rest.subrange(1, rest.len() as int)))
    } else if rest.len() >= 4 && rest[0] == '^' && rest[1] == '^' && rest[2] == '<' && rest[rest.len() - 1] == '>' {
        let dt = rest.subrange(3, rest.len() - 1);
        if dt == xsd_string() {
            Some(TermView::Simple(v))
        } else {
            Some(TermView::Typed(v, dt))
        }
    } else {
        None
    }
}

/// The term that a printed term stands for: `<iri>`, `_:id` or a quoted
/// literal; `None` for a quoted triple (`<< .. >>`, not supported) or a
/// form that is none of these.
pub open spec fn decode_term(s: Seq<char>) -> Option<TermView> {
    if s.len() >= 2 && s[0] == '<' && s[1] == '<' {
        None
    } else if s.len() >= 2 && s[0] == '<' && s[s.len() - 1] == '>' {
        Some(TermView::NamedNode(s.subrange(1, s.len() - 1)))
    } else if s.len() >= 2 && s[0] == '_' && s[1] == ':' {
        Some(TermView::BlankNode(s.subrange(2, s.len() as int)))
    } else if s.len() >= 1 && s[0] == '"' {
        match unquote(s, 1, Seq::empty()) {
            Some((v, j)) => literal_of(v, s.subrange(j, s.len() as int)),
            None => None,
        }
    } else {
        None
    }
}

/// The triple of terms that a printed triple stands for.
pub open spec fn decode_triple(p: Printed) -> Option<TripleView> {
    match (decode_term(p.0), decode_term(p.1), decode_term(p.2)) {
        (Some(s), Some(q), Some(o)) => Some(TripleView { subject: s, predicate: q, object: o }),
        _ => None,
    }
}

/// The triples of terms that printed triples stand for, in order; `None`
/// where one of them stands for none.
pub open spec fn decode_all(ps: Seq<Printed>) -> Option<Seq<TripleView>>
    decreases ps.len(),
{
    if ps.len() == 0 {
        Some(Seq::empty())
    } else {
        match (decode_all(ps.drop_last()), decode_triple(ps.last())) {
            (Some(a), Some(t)) => Some(a.push(t)),
            _ => None,
        }
    }
}

/// The triples of terms that a document of the given format holds, or the
/// parser's error message (`Err`), or `Ok(None)` where a triple uses a term
/// the library does not hold (a quoted triple).
pub open spec fn document_triples(format: FileFormat, doc: Seq<u8>) -> Result<Option<Seq<TripleView>>, Seq<char>> {
    let parsed = match format {
        FileFormat::Turtle => turtle_doc(doc),
        FileFormat::NTriples => ntriples_doc(doc),
    };
    match parsed {
        Ok(ps) => Ok(decode_all(ps)),
        Err(m) => Err(m),
    }
}

/// Reads a quoted string of `s` from position `i`, as `unquote` does.
fn read_quoted(s: &str, start: usize) -> (r: Option<(String, usize)>)
    requires
        start <= s@.len(),
    ensures
        match r {
            Some((v, j)) => unquote(s@, start as int, Seq::empty()) == Some((v@, j as int)),
            None => unquote(s@, start as int, Seq::empty()) is None,
        },
{
    let n = s.unicode_len();
    let mut acc = String::new();
    let mut i: usize = start;
    proof {
        assert(acc@ =~= Seq::<char>::empty());
    }
    while i < n
        invariant
            n == s@.len(),
            start <= i,
            unquote(s@, start as int, Seq::empty()) == unquote(s@, i as int, acc@),
        decreases n - i,
    {
        let c = s.get_char(i);
        let ghost before = acc@;
        if c == '"' {
            return Some((acc, i + 1));
        } else if c == '\\' {
            if i + 1 >= n {
                return None;
            }
            let d = s.get_char(i + 1);
            if d == 'n' {
                acc.append("\n");
                proof {
                    reveal_strlit("\n");
                    assert("\n"@ =~= seq!['\n']);
                }
            } else if d == 'r' {
                acc.append("\r");
                proof {
                    reveal_strlit("\r");
                    assert("\r"@ =~= seq!['\r']);
                }
            } else {
                let one = s.substring_char(i + 1, i + 2);
                acc.append(one);
                proof {
                    assert(one@ =~= seq![d]);
                }
            }
            proof {
                assert(acc@ =~= before.push(unescaped(s@[i + 1])));
            }
            i = i + 2;
        } else {
            let one = s.substring_char(i, i + 1);
            acc.append(one);
            proof {
                assert(one@ =~= seq![c]);
                assert(acc@ =~= before.push(c));
            }
            i = i + 1;
        }
    }
    None
}


/// A quoted string ends no further than the text.
proof fn lemma_unquote_bound(s: Seq<char>, i: int, acc: Seq<char>)
    ensures
        unquote(s, i, acc) matches Some((_, j)) ==> j <= s.len(),
    decreases s.len() - i,
{
    if 0 <= i < s.len() && s[i] != '"' {
        if s[i] == '\\' {
            if i + 1 < s.len() {
                lemma_unquote_bound(s, i + 2, acc.push(unescaped(s[i + 1])));
            }
        } else {
            lemma_unquote_bound(s, i + 1, acc.push(s[i]));
        }
    }
}

/// The literal of value `v` whose printed form continues with `rest`.
fn literal(v: String, rest: &str) -> (r: Option<Term>)
    ensures
        match r {
            Some(t) => literal_of(v@, rest@) == Some(t@),
            None => literal_of(v@, rest@) is None,
        },
{
    let n = rest.unicode_len();
    if n == 0 {
        return Some(Term::Literal(Literal::Simple(v)));
    }
    if rest.get_char(0) == '@' {
        let lang = String::from_str(rest.substring_char(1, n));
        return Some(Term::Literal(Literal::LanguageTagged(v, lang)));
    }
    if n >= 4 && rest.get_char(0) == '^' && rest.get_char(1) == '^' && rest.get_char(2) == '<' && rest.get_char(n - 1) == '>' {
        let dt = rest.substring_char(3, n - 1);
        let xsd = "http://www.w3.org/2001/XMLSchema#string";
        proof {
            reveal_strlit("http://www.w3.org/2001/XMLSchema#string");
        }
        if crate::diagnostics::str_eq(dt, xsd) {
            return Some(Term::Literal(Literal::Simple(v)));
        }
        return Some(Term::Literal(Literal::Typed(v, String::from_str(dt))));
    }
    None
}

/// The term that a printed term stands for, as `decode_term` says.
pub fn decode(s: &str) -> (r: Option<Term>)
    ensures
        match r {
            Some(t) => decode_term(s@) == Some(t@),
            None => decode_term(s@) is None,
        },
{
    let n = s.unicode_len();
    if n >= 2 && s.get_char(0) == '<' && s.get_char(1) == '<' {
        return None;
    }
    if n >= 2 && s.get_char(0) == '<' && s.get_char(n - 1) == '>' {
        return Some(Term::NamedNode(String::from_str(s.substring_char(1, n - 1))));
    }
    if n >= 2 && s.get_char(0) == '_' && s.get_char(1) == ':' {
        return Some(Term::BlankNode(String::from_str(s.substring_char(2, n))));
    }
    if n >= 1 && s.get_char(0) == '"' {
        match read_quoted(s, 1) {
            None => None,
            Some((v, j)) => {
                proof {
                    lemma_unquote_bound(s@, 1, Seq::empty());
                }
                literal(v, s.substring_char(j, n))
            },
        }
    } else {
        None
    }
}

/// The triples of terms that printed triples stand for, as `decode_all` says.
pub fn decode_printed(ps: &Vec<(String, String, String)>) -> (r: Option<Vec<crate::common::Triple>>)
    ensures
        match r {
            Some(v) => decode_all(printed_views(ps@)) == Some(triple_views(v@)),
            None => decode_all(printed_views(ps@)) is None,
        },
{
    let ghost pv = printed_views(ps@);
    let mut out: Vec<crate::common::Triple> = Vec::new();
    let mut k: usize = 0;
    while k < ps.len()
        invariant
            0 <= k <= ps@.len(),
            pv == printed_views(ps@),
            out@.len() == k,
            decode_all(pv.take(k as int)) == Some(triple_views(out@)),
        decreases ps@.len() - k,
    {
        proof {
            let t1 = pv.take(k + 1);
            assert(t1.drop_last() =~= pv.take(k as int));
            assert(t1.last() == pv[k as int]);
            assert(pv[k as int] == (ps@[k as int].0@, ps@[k as int].1@, ps@[k as int].2@));
        }
        let ds = decode(ps[k].0.as_str());
        let dp = decode(ps[k].1.as_str());
        let dob = decode(ps[k].2.as_str());
        match (ds, dp, dob) {
            (Some(a), Some(b), Some(c)) => {
                let ghost before = out@;
                out.push(crate::common::Triple { subject: a, predicate: b, object: c });
                proof {
                    assert(triple_views(out@) =~= triple_views(before).push(out@[k as int]@));
                }
            },
            _ => {
                proof {
                    assert(decode_all(pv.take(k + 1)) is None);
                    lemma_decode_none(pv, k as int + 1);
                    assert(pv.take(pv.len() as int) =~= pv);
                }
                return None;
            },
        }
        k += 1;
    }
    proof {
        assert(pv.take(ps@.len() as int) =~= pv);
    }
    Some(out)
}

/// A printed triple that stands for none spoils every longer prefix.
proof fn lemma_decode_none(ps: Seq<Printed>, k: int)
    requires
        0 <= k <= ps.len(),
        decode_all(ps.take(k)) is None,
    ensures
        decode_all(ps.take(ps.len() as int)) is None,
    decreases ps.len() - k,
{
    if k < ps.len() {
        let t = ps.take(k + 1);
        assert(t.drop_last() =~= ps.take(k));
        lemma_decode_none(ps, k + 1);
    }
}

/// The message of the error for a document with a quoted triple.
pub open spec fn quoted_message() -> Seq<char> {
    "quoted triples are not supported"@
}

/// `r` is what reading a document of the given format gives: its triples,
/// or a `Turtle` error with the parser's message, or with `quoted_message`
/// where a triple uses a quoted triple.
pub open spec fn read_as(format: FileFormat, doc: Seq<u8>, r: Result<Seq<TripleView>, ReasonableError>) -> bool {
    match document_triples(format, doc) {
        Ok(Some(tvs)) => r == Ok::<Seq<TripleView>, ReasonableError>(tvs),
        Ok(None) => r matches Err(ReasonableError::Turtle(m)) && m@ == quoted_message(),
        Err(msg) => r matches Err(ReasonableError::Turtle(m)) && m@ == msg,
    }
}

/// The view of a parse result.
pub open spec fn result_view(r: Result<Vec<crate::common::Triple>, ReasonableError>) -> Result<Seq<TripleView>, ReasonableError> {
    match r {
        Ok(v) => Ok(triple_views(v@)),
        Err(e) => Err(e),
    }
}

/// Reads a document of the given format into triples of terms.
pub fn parse_document(format: FileFormat, doc: &[u8]) -> (r: Result<Vec<crate::common::Triple>, ReasonableError>)
    ensures
        read_as(format, doc@, result_view(r)),
{
    let parsed = match format {
        FileFormat::Turtle => rio_turtle(doc),
        FileFormat::NTriples => rio_ntriples(doc),
    };
    match parsed {
        Err(m) => Err(ReasonableError::Turtle(m)),
        Ok(ps) => match decode_printed(&ps) {
            Some(v) => Ok(v),
            None => {
                proof {
                    reveal_strlit("quoted triples are not supported");
                }
                Err(ReasonableError::Turtle(String::from_str("quoted triples are not supported")))
            },
        },
    }
}

/// The format of a file by its name, as `file_format` decides it.
pub open spec fn format_of(name: Seq<char>) -> Option<FileFormat> {
    if ends_with(name, ".ttl"@) {
        Some(FileFormat::Turtle)
    } else if ends_with(name, ".n3"@) {
        Some(FileFormat::NTriples)
    } else {
        None
    }
}

/// `r` is what reading the file `name` with contents `doc` gives: an `IO`
/// error for a name that is neither `.ttl` nor `.n3`, else the document read
/// in that format.
pub open spec fn file_read_as(name: Seq<char>, doc: Seq<u8>, r: Result<Seq<TripleView>, ReasonableError>) -> bool {
    match format_of(name) {
        None => r matches Err(e) && e is IO,
        Some(f) => read_as(f, doc, r),
    }
}

/// Reads the contents `doc` of the file `filename` in the format its name
/// says.
pub fn parse_file(filename: &str, doc: &[u8]) -> (r: Result<Vec<crate::common::Triple>, ReasonableError>)
    ensures
        file_read_as(filename@, doc@, result_view(r)),
{
    match file_format(filename) {
        Err(e) => Err(e),
        Ok(f) => parse_document(f, doc),
    }
}


impl Reasoner {
    /// Loads the triples of the file `filename`, whose contents are `doc`
    /// (the caller reads the bytes): Turtle for `.ttl`, N-Triples for `.n3`.
    /// On an error the reasoner is left as it was.
    pub fn load_document(&mut self, filename: &str, doc: &[u8]) -> (r: Result<(), ReasonableError>)
        requires
            old(self).wf(),
        ensures
            final(self).wf(),
            match r {
                Ok(()) => exists|tvs: Seq<TripleView>|
                    #[trigger] file_read_as(filename@, doc@, Ok(tvs)) && loaded_into(*old(self), *final(self), tvs),
                Err(e) => *final(self) == *old(self) && (file_read_as(filename@, doc@, Err(e)) || (exists|tvs: Seq<TripleView>|
                    #[trigger] file_read_as(filename@, doc@, Ok(tvs)) && e is ManagerError && old(self).terms().len() + 3
                        * tvs.len() >= u32::MAX)),
            },
            forall|tvs: Seq<TripleView>|
                #[trigger] file_read_as(filename@, doc@, Ok(tvs)) && old(self).terms().len() + 3 * tvs.len() < u32::MAX
                    ==> r is Ok,
    {
        match parse_file(filename, doc) {
            Err(e) => Err(e),
            Ok(ts) => {
                if !room_for(self, ts.len()) {
                    return Err(ReasonableError::ManagerError(String::from_str("too many terms")));
                }
                let ghost tvs = triple_views(ts@);
                self.load_triples(ts);
                proof {
                    assert(loaded_into(*old(self), *self, tvs));
                    assert(file_read_as(filename@, doc@, Ok(tvs)));
                }
                Ok(())
            },
        }
    }
}


/// `loaded` holds what reading each file gives: the file named `names[i]`,
/// with contents `docs[i]`, read as `parse_file` reads it.
pub open spec fn reads_files(
    names: Seq<Seq<char>>,
    docs: Seq<Vec<u8>>,
    loaded: Seq<Result<Vec<crate::common::Triple>, ReasonableError>>,
) -> bool {
    &&& loaded.len() == names.len()
    &&& docs.len() == names.len()
    &&& forall|i: int| 0 <= i < loaded.len() ==> file_read_as(names[i], docs[i]@, #[trigger] result_view(loaded[i]))
}

impl ReasonerBuilder {
    /// Builds a reasoner from the contents of its files (`docs`, in the order
    /// of the files; the caller reads the bytes): each is read in the format
    /// its name says, then everything is loaded as `build` does.
    pub fn build_documents(self, docs: Vec<Vec<u8>>) -> (r: Result<Reasoner, ReasonableError>)
        requires
            docs@.len() == self.file_names().len(),
        ensures
            exists|loaded: Seq<Result<Vec<crate::common::Triple>, ReasonableError>>|
                #[trigger] reads_files(self.file_names(), docs@, loaded) && built(
                    self.str_list(),
                    self.triple_list(),
                    loaded,
                    r,
                ),
    {
        let names = self.files();
        let ghost nv = self.file_names();
        proof {
            assert(names@.map_values(|s: String| s@) == nv);
        }
        let mut loaded: Vec<Result<Vec<crate::common::Triple>, ReasonableError>> = Vec::new();
        let mut k: usize = 0;
        while k < docs.len()
            invariant
                0 <= k <= docs@.len(),
                docs@.len() == nv.len(),
                names@.len() == nv.len(),
                names@.map_values(|s: String| s@) == nv,
                loaded@.len() == k,
                forall|i: int| 0 <= i < k ==> file_read_as(nv[i], docs@[i]@, #[trigger] result_view(loaded@[i])),
            decreases docs@.len() - k,
        {
            let res = parse_file(names[k].as_str(), docs[k].as_slice());
            proof {
                assert(names@[k as int]@ == nv[k as int]);
            }
            loaded.push(res);
            proof {
                assert(loaded@[k as int] == res);
            }
            k += 1;
        }
        let ghost lv = loaded@;
        proof {
            assert(reads_files(nv, docs@, lv));
        }
        self.build(loaded)
    }
}

} // verus!
