use reasonable::cli::{diagnostic_lines, escape_json, matches_fail, should_fail, ErrorFormat};
use reasonable::common::{escape_literal, make_triple, suggests_literal, Literal, Term, Triple};
use reasonable::diagnostics::{DiagnosticSeverity, ReasonerOptions, ReasoningError};
use reasonable::document::{decode, parse_document, parse_file};
use reasonable::error::ReasonableError;
use reasonable::index::URIIndex;
use reasonable::rdf_lists::DisjointSets;
use reasonable::reasoner::{file_format, FileFormat, Reasoner, ReasonerBuilder};
use reasonable::relation::{contains_sorted, get_unique};

const RDF_TYPE: &str = "http://www.w3.org/1999/02/22-rdf-syntax-ns#type";
const RDF_FIRST: &str = "http://www.w3.org/1999/02/22-rdf-syntax-ns#first";
const RDF_REST: &str = "http://www.w3.org/1999/02/22-rdf-syntax-ns#rest";
const RDF_NIL: &str = "http://www.w3.org/1999/02/22-rdf-syntax-ns#nil";
const RDFS_DOMAIN: &str = "http://www.w3.org/2000/01/rdf-schema#domain";
const RDFS_RANGE: &str = "http://www.w3.org/2000/01/rdf-schema#range";
const OWL_INVERSEOF: &str = "http://www.w3.org/2002/07/owl#inverseOf";
const OWL_EQUIVPROP: &str = "http://www.w3.org/2002/07/owl#equivalentProperty";
const OWL_UNION: &str = "http://www.w3.org/2002/07/owl#unionOf";
const OWL_DISJOINTWITH: &str = "http://www.w3.org/2002/07/owl#disjointWith";
const OWL_IRREFLEXIVE: &str = "http://www.w3.org/2002/07/owl#IrreflexiveProperty";
const OWL_ASYMMETRICPROP: &str = "http://www.w3.org/2002/07/owl#AsymmetricProperty";
const OWL_PDW: &str = "http://www.w3.org/2002/07/owl#propertyDisjointWith";
const OWL_NOTHING: &str = "http://www.w3.org/2002/07/owl#Nothing";
const OWL_THING: &str = "http://www.w3.org/2002/07/owl#Thing";
const OWL_COMPLEMENT: &str = "http://www.w3.org/2002/07/owl#complementOf";

fn wrap(s: &str) -> String {
    format!("<{}>", s)
}

fn triple(s: &str, p: &str, o: &str) -> (String, String, String) {
    (wrap(s), wrap(p), wrap(o))
}

fn named(s: &str) -> Term {
    Term::NamedNode(s.to_string())
}

fn reasoned(trips: Vec<(&'static str, &'static str, &'static str)>) -> Reasoner {
    let mut r = Reasoner::new();
    r.load_triples_str(trips);
    r.reason();
    r
}

fn sorted_output(r: &Reasoner) -> Vec<(String, String, String)> {
    let mut v = r.get_triples_string();
    v.sort();
    v
}

// ---- rules and reasoning -------------------------------------------------

#[test]
fn prp_dom_and_rng_type_subject_and_object() {
    let r = reasoned(vec![
        ("urn:p", RDFS_DOMAIN, "urn:D"),
        ("urn:p", RDFS_RANGE, "urn:R"),
        ("urn:x", "urn:p", "urn:y"),
    ]);
    let res = r.get_triples_string();
    assert!(res.contains(&triple("urn:x", RDF_TYPE, "urn:D")));
    assert!(res.contains(&triple("urn:y", RDF_TYPE, "urn:R")));
    assert!(!res.contains(&triple("urn:y", RDF_TYPE, "urn:D")));
}

#[test]
fn prp_inv2_reverses_the_second_property() {
    let r = reasoned(vec![("urn:p1", OWL_INVERSEOF, "urn:p2"), ("urn:x", "urn:p2", "urn:y")]);
    let res = r.get_triples_string();
    assert!(res.contains(&triple("urn:y", "urn:p1", "urn:x")));
}

#[test]
fn prp_eqp2_copies_back_to_the_first_property() {
    let r = reasoned(vec![("urn:p1", OWL_EQUIVPROP, "urn:p2"), ("urn:x", "urn:p2", "urn:y")]);
    let res = r.get_triples_string();
    assert!(res.contains(&triple("urn:x", "urn:p1", "urn:y")));
}

#[test]
fn cls_uni_types_members_with_the_union() {
    let r = reasoned(vec![
        ("urn:u", OWL_UNION, "urn:l1"),
        ("urn:l1", RDF_FIRST, "urn:a"),
        ("urn:l1", RDF_REST, "urn:l2"),
        ("urn:l2", RDF_FIRST, "urn:b"),
        ("urn:l2", RDF_REST, RDF_NIL),
        ("urn:x", RDF_TYPE, "urn:b"),
    ]);
    let res = r.get_triples_string();
    assert!(res.contains(&triple("urn:x", RDF_TYPE, "urn:u")));
    assert!(!res.contains(&triple("urn:x", RDF_TYPE, "urn:a")));
}

#[test]
fn every_subject_is_a_thing() {
    let r = reasoned(vec![("urn:s", "urn:p", "urn:o")]);
    let res = r.get_triples_string();
    assert!(res.contains(&triple("urn:s", RDF_TYPE, OWL_THING)));
    assert!(!res.contains(&triple("urn:o", RDF_TYPE, OWL_THING)));
}

#[test]
fn loaded_triples_are_in_the_output() {
    let r = reasoned(vec![("urn:s", "urn:p", "urn:o"), ("urn:a", "urn:b", "urn:c")]);
    let res = r.get_triples_string();
    assert!(res.contains(&triple("urn:s", "urn:p", "urn:o")));
    assert!(res.contains(&triple("urn:a", "urn:b", "urn:c")));
}

#[test]
fn reasoning_twice_changes_nothing() {
    let mut r = Reasoner::new();
    r.load_triples_str(vec![
        ("urn:p", RDFS_DOMAIN, "urn:D"),
        ("urn:x", "urn:p", "urn:y"),
        ("urn:x", "http://www.w3.org/2002/07/owl#sameAs", "urn:z"),
    ]);
    r.reason();
    let first = sorted_output(&r);
    r.reason();
    let second = sorted_output(&r);
    assert_eq!(first, second);
}

#[test]
fn an_instance_of_a_class_is_not_typed_with_its_complement() {
    let r = reasoned(vec![
        ("urn:c1", OWL_COMPLEMENT, "urn:c2"),
        ("urn:a", RDF_TYPE, "urn:c1"),
        ("urn:b", RDF_TYPE, "urn:other"),
    ]);
    let res = r.get_triples_string();
    assert!(!res.contains(&triple("urn:a", RDF_TYPE, "urn:c2")));
    assert!(res.contains(&triple("urn:b", RDF_TYPE, "urn:c2")));
}

#[test]
fn the_reserved_identifier_never_appears_in_the_output() {
    let r = reasoned(vec![("urn:_", "urn:p", "urn:o"), ("urn:s", "urn:p", "urn:o")]);
    let res = r.get_triples_string();
    assert!(res.iter().all(|(s, p, o)| s != "<urn:_>" && p != "<urn:_>" && o != "<urn:_>"));
    assert!(res.contains(&triple("urn:s", "urn:p", "urn:o")));
}

#[test]
fn strings_that_are_not_iris_skip_their_triple() {
    let r = reasoned(vec![("urn:s", "urn:p", "not an iri"), ("urn:a", "urn:b", "urn:c")]);
    let res = r.get_triples_string();
    assert!(res.contains(&triple("urn:a", "urn:b", "urn:c")));
    assert!(!res.iter().any(|(s, _, _)| s == "<urn:s>"));
}

#[test]
fn loading_twice_keeps_one_copy_in_the_base() {
    let mut r = Reasoner::new();
    r.load_triples_str(vec![("urn:s", "urn:p", "urn:o")]);
    r.load_triples_str(vec![("urn:s", "urn:p", "urn:o")]);
    let input = r.get_input();
    let n = input
        .iter()
        .filter(|t| t.subject.to_string() == "<urn:s>")
        .count();
    assert_eq!(n, 1);
    assert_eq!(input.len(), 3);
}

#[test]
fn clear_forgets_what_was_inferred() {
    let mut r = Reasoner::new();
    r.load_triples_str(vec![("urn:p", RDFS_DOMAIN, "urn:D"), ("urn:x", "urn:p", "urn:y")]);
    r.reason();
    let first = sorted_output(&r);
    r.clear();
    r.reason();
    let second = sorted_output(&r);
    assert_eq!(first, second);
    assert_eq!(r.get_input().len(), 4);
}

#[test]
fn load_triples_interns_literals_and_blank_nodes() {
    let mut r = Reasoner::new();
    r.load_triples(vec![
        Triple {
            subject: Term::BlankNode("b0".to_string()),
            predicate: named("urn:label"),
            object: Term::Literal(Literal::LanguageTagged("chat".to_string(), "fr".to_string())),
        },
        Triple {
            subject: named("urn:s"),
            predicate: named("urn:count"),
            object: Term::Literal(Literal::Typed(
                "3".to_string(),
                "http://www.w3.org/2001/XMLSchema#integer".to_string(),
            )),
        },
    ]);
    r.reason();
    let res = r.get_triples_string();
    assert!(res.contains(&(
        "_:b0".to_string(),
        "<urn:label>".to_string(),
        "\"chat\"@fr".to_string()
    )));
    assert!(res.contains(&(
        "<urn:s>".to_string(),
        "<urn:count>".to_string(),
        "\"3\"^^<http://www.w3.org/2001/XMLSchema#integer>".to_string()
    )));
}

#[test]
fn view_output_and_get_triples_agree() {
    let r = reasoned(vec![("urn:s", "urn:p", "urn:o")]);
    let a: Vec<String> = r.view_output().iter().map(|t| t.object.to_string()).collect();
    let b: Vec<String> = r.get_triples().iter().map(|t| t.object.to_string()).collect();
    assert_eq!(a, b);
    assert!(!a.is_empty());
}

// ---- diagnostics ----------------------------------------------------------

#[test]
fn cax_dw_is_reported_with_its_code_and_message() {
    let r = reasoned(vec![
        ("urn:A", OWL_DISJOINTWITH, "urn:B"),
        ("urn:x", RDF_TYPE, "urn:A"),
        ("urn:x", RDF_TYPE, "urn:B"),
    ]);
    let errs = r.errors();
    assert_eq!(errs.len(), 1);
    assert_eq!(errs[0].code(), "OWLRL.CAX_DW");
    assert_eq!(errs[0].rule(), "cax-dw");
    assert_eq!(*errs[0].severity(), DiagnosticSeverity::Error);
    assert_eq!(
        errs[0].message(),
        "inst <urn:x> is both <urn:A> and <urn:B> (disjoint classes)"
    );
    assert_eq!(r.diagnostics().len(), 1);
}

#[test]
fn prp_irp_is_reported() {
    let r = reasoned(vec![("urn:p", RDF_TYPE, OWL_IRREFLEXIVE), ("urn:x", "urn:p", "urn:x")]);
    let errs = r.errors();
    assert_eq!(errs.len(), 1);
    assert_eq!(errs[0].code(), "OWLRL.PRP_IRP");
    assert_eq!(errs[0].message(), "property <urn:p> of <urn:x> is irreflexive");
}

#[test]
fn prp_asyp_is_reported_for_both_directions() {
    let r = reasoned(vec![
        ("urn:p", RDF_TYPE, OWL_ASYMMETRICPROP),
        ("urn:x", "urn:p", "urn:y"),
        ("urn:y", "urn:p", "urn:x"),
    ]);
    let msgs: Vec<&str> = r.errors().iter().map(|e| e.message()).collect();
    assert_eq!(msgs.len(), 2);
    assert!(msgs.contains(&"property <urn:p> of <urn:x> and <urn:y> is asymmetric"));
    assert!(msgs.contains(&"property <urn:p> of <urn:y> and <urn:x> is asymmetric"));
    assert!(r.errors().iter().all(|e| e.code() == "OWLRL.PRP_ASYP"));
}

#[test]
fn prp_pdw_is_reported() {
    let r = reasoned(vec![
        ("urn:p1", OWL_PDW, "urn:p2"),
        ("urn:x", "urn:p1", "urn:y"),
        ("urn:x", "urn:p2", "urn:y"),
    ]);
    let errs = r.errors();
    assert_eq!(errs.len(), 1);
    assert_eq!(errs[0].code(), "OWLRL.PRP_PDW");
    assert_eq!(
        errs[0].message(),
        "property <urn:p1> is disjoint with <urn:p2> for pair (<urn:x> <urn:p1> <urn:y>)"
    );
}

#[test]
fn cls_nothing2_is_reported() {
    let r = reasoned(vec![("urn:x", RDF_TYPE, OWL_NOTHING)]);
    let errs = r.errors();
    assert_eq!(errs.len(), 1);
    assert_eq!(errs[0].code(), "OWLRL.CLS_NOTHING");
    assert_eq!(errs[0].message(), "instance <urn:x> is owl:Nothing (unsatisfiable)");
}

#[test]
fn a_consistent_graph_has_no_diagnostics() {
    let r = reasoned(vec![("urn:x", RDF_TYPE, "urn:A")]);
    assert_eq!(r.errors().len(), 0);
}

fn disjoint_violation(r: &mut Reasoner) {
    r.load_triples_str(vec![
        ("urn:A", OWL_DISJOINTWITH, "urn:B"),
        ("urn:x", RDF_TYPE, "urn:A"),
        ("urn:x", RDF_TYPE, "urn:B"),
        ("urn:y", RDF_TYPE, "urn:A"),
        ("urn:y", RDF_TYPE, "urn:B"),
    ]);
}

#[test]
fn deduplication_reports_a_violation_once_across_rounds() {
    let mut r = Reasoner::new();
    disjoint_violation(&mut r);
    r.reason();
    r.reason();
    assert_eq!(r.errors().len(), 2);
}

#[test]
fn a_second_round_reports_only_new_violations() {
    let mut r = Reasoner::new();
    r.set_options(ReasonerOptions { collect_diagnostics: true, max_diagnostics: None, dedupe: false });
    disjoint_violation(&mut r);
    r.reason();
    assert_eq!(r.errors().len(), 2);
    r.reason();
    assert_eq!(r.errors().len(), 2);
    r.load_triples_str(vec![("urn:z", RDF_TYPE, "urn:A"), ("urn:z", RDF_TYPE, "urn:B")]);
    r.reason();
    assert_eq!(r.errors().len(), 3);
    r.clear();
    r.reason();
    assert_eq!(r.errors().len(), 6);
}

#[test]
fn the_maximum_caps_the_diagnostics() {
    let mut r = Reasoner::new();
    r.set_options(ReasonerOptions { collect_diagnostics: true, max_diagnostics: Some(1), dedupe: true });
    disjoint_violation(&mut r);
    r.reason();
    assert_eq!(r.errors().len(), 1);
}

#[test]
fn without_collection_nothing_is_reported() {
    let mut r = Reasoner::new();
    r.set_options(ReasonerOptions { collect_diagnostics: false, max_diagnostics: None, dedupe: true });
    disjoint_violation(&mut r);
    r.reason();
    assert_eq!(r.errors().len(), 0);
}

#[test]
fn reasoning_error_codes_follow_the_rule() {
    let cases = [
        ("cax-dw", "OWLRL.CAX_DW"),
        ("prp-pdw", "OWLRL.PRP_PDW"),
        ("cls-nothing2", "OWLRL.CLS_NOTHING"),
        ("prp-asyp", "OWLRL.PRP_ASYP"),
        ("prp-irp", "OWLRL.PRP_IRP"),
        ("cls-com", "OWLRL.CLS_COM"),
        ("eq-diff1", "OWLRL.UNKNOWN"),
    ];
    for (rule, code) in cases.iter() {
        let e = ReasoningError::new(rule.to_string(), "m".to_string());
        assert_eq!(e.code(), *code);
        assert_eq!(e.rule(), *rule);
        assert_eq!(e.message(), "m");
    }
}

#[test]
fn reasoning_error_prints_severity_rule_and_message() {
    let e = ReasoningError::new("cax-dw".to_string(), "inst x".to_string());
    assert_eq!(e.to_string(), "error[cax-dw]: inst x");
    assert_eq!(DiagnosticSeverity::Warning.to_string(), "warning");
    assert_eq!(DiagnosticSeverity::Info.to_string(), "info");
}

#[test]
fn default_options_collect_and_deduplicate() {
    let o = ReasonerOptions::default();
    assert!(o.collect_diagnostics);
    assert!(o.dedupe);
    assert_eq!(o.max_diagnostics, None);
}

// ---- terms, triples and the index ----------------------------------------

#[test]
fn make_triple_refuses_a_literal_subject_and_a_blank_predicate() {
    let lit = Term::Literal(Literal::Simple("v".to_string()));
    match make_triple(lit, named("urn:p"), named("urn:o")) {
        Err(ReasonableError::ManagerError(m)) => assert_eq!(m, "Cannot have literal as subject"),
        _ => panic!("expected an error"),
    }
    match make_triple(named("urn:s"), Term::BlankNode("b".to_string()), named("urn:o")) {
        Err(ReasonableError::ManagerError(m)) => assert_eq!(m, "Must have named node as predicate"),
        _ => panic!("expected an error"),
    }
    let t = make_triple(named("urn:s"), named("urn:p"), named("urn:o")).unwrap();
    assert_eq!(t.subject.to_string(), "<urn:s>");
}

#[test]
fn terms_print_as_ntriples() {
    assert_eq!(named("urn:a").to_string(), "<urn:a>");
    assert_eq!(Term::BlankNode("b1".to_string()).to_string(), "_:b1");
    assert_eq!(Term::Literal(Literal::Simple("a\"b\n".to_string())).to_string(), "\"a\\\"b\\n\"");
    assert_eq!(
        Term::Literal(Literal::LanguageTagged("hi".to_string(), "en".to_string())).to_string(),
        "\"hi\"@en"
    );
}

#[test]
fn the_index_reserves_zero_and_reads_back_what_it_interned() {
    let mut ix = URIIndex::new();
    assert_eq!(ix.len(), 1);
    assert_eq!(ix.get(0).unwrap().to_string(), "<urn:_>");
    let a = ix.put(named("urn:a"));
    let b = ix.put(Term::Literal(Literal::Simple("urn:a".to_string())));
    let a2 = ix.put(named("urn:a"));
    assert_eq!(a, 1);
    assert_eq!(b, 2);
    assert_eq!(a2, a);
    assert_eq!(ix.len(), 3);
    assert_eq!(ix.get(a).unwrap().to_string(), "<urn:a>");
    assert_eq!(ix.get(b).unwrap().to_string(), "\"urn:a\"");
    assert!(ix.get(3).is_none());
    assert_eq!(ix.put_str("urn:a").unwrap(), a);
}

#[test]
fn put_str_refuses_what_is_not_an_iri() {
    let mut ix = URIIndex::new();
    match ix.put_str("not an iri") {
        Err(ReasonableError::IriParse(s)) => assert_eq!(s, "not an iri"),
        _ => panic!("expected an IRI error"),
    }
    assert_eq!(ix.len(), 1);
}

// ---- relations -----------------------------------------------------------

#[test]
fn get_unique_removes_what_src_holds() {
    let src = vec![(1, (0, 0)), (3, (0, 0)), (5, (0, 0))];
    let mut rv = vec![(1, (0, 0)), (2, (0, 0)), (3, (0, 0)), (4, (0, 0))];
    get_unique(&src, &mut rv);
    assert_eq!(rv, vec![(2, (0, 0)), (4, (0, 0))]);
    let mut empty_src = vec![(7, (0, 0))];
    get_unique(&[], &mut empty_src);
    assert_eq!(empty_src, vec![(7, (0, 0))]);
}

#[test]
fn contains_sorted_finds_members_only() {
    let s = vec![(1, (0, 0)), (2, (1, 1)), (4, (0, 2))];
    assert!(contains_sorted(&s, (2, (1, 1))));
    assert!(!contains_sorted(&s, (2, (1, 2))));
    assert!(!contains_sorted(&vec![], (0, (0, 0))));
}

// ---- lists -----------------------------------------------------------------

#[test]
fn lists_collect_the_first_value_of_each_linked_node() {
    // list l1 = [10, 20, 30] with first = 100, rest = 101, nil = 102
    let input = vec![
        (1, (100, 10)),
        (1, (101, 2)),
        (2, (100, 20)),
        (2, (101, 3)),
        (3, (100, 30)),
        (3, (101, 102)),
        (9, (7, 8)),
    ];
    let ds = DisjointSets::new(&input, 100, 101, 102);
    let mut v = ds.get_list_values(1).unwrap();
    v.sort();
    assert_eq!(v, vec![10, 20, 30]);
    let mut w = ds.get_list_values(3).unwrap();
    w.sort();
    assert_eq!(w, vec![10, 20, 30]);
    assert!(ds.get_list_values(9).is_none());
    assert!(ds.get_list_values(42).is_none());
}

#[test]
fn a_node_with_two_first_values_keeps_the_greatest() {
    let input = vec![(1, (100, 10)), (1, (100, 12)), (1, (101, 102))];
    let ds = DisjointSets::new(&input, 100, 101, 102);
    assert_eq!(ds.get_list_values(1).unwrap(), vec![12]);
}

// ---- files and the command line -------------------------------------------

#[test]
fn file_format_goes_by_the_extension() {
    assert_eq!(file_format("a/b.ttl").unwrap(), FileFormat::Turtle);
    assert_eq!(file_format("x.n3").unwrap(), FileFormat::NTriples);
    match file_format("x.nt") {
        Err(ReasonableError::IO(m)) => assert_eq!(m, "no parser for file (only ttl and n3)"),
        _ => panic!("expected an IO error"),
    }
}

#[test]
fn matches_fail_trims_and_ignores_ascii_case() {
    let fail_on = vec![" CAX-DW ".to_string()];
    assert!(matches_fail(&fail_on, "OWLRL.CAX_DW", "cax-dw"));
    assert!(matches_fail(&vec!["owlrl.prp_irp".to_string()], "OWLRL.PRP_IRP", "prp-irp"));
    assert!(!matches_fail(&fail_on, "OWLRL.PRP_IRP", "prp-irp"));
    assert!(!matches_fail(&vec![], "OWLRL.CAX_DW", "cax-dw"));
}

#[test]
fn escape_json_escapes_backslashes_and_quotes() {
    assert_eq!(escape_json("a\\b\"c"), "a\\\\b\\\"c");
    assert_eq!(escape_json("plain"), "plain");
}

#[test]
fn diagnostics_print_in_each_format() {
    let diags = vec![
        ReasoningError::new("cax-dw".to_string(), "m \"1\"".to_string()),
        ReasoningError::new("prp-irp".to_string(), "m2".to_string()),
    ];
    assert_eq!(
        diagnostic_lines(&diags, ErrorFormat::Text, None),
        vec!["OWLRL.CAX_DW cax-dw: m \"1\"".to_string(), "OWLRL.PRP_IRP prp-irp: m2".to_string()]
    );
    assert_eq!(
        diagnostic_lines(&diags, ErrorFormat::Json, Some(1)),
        vec!["[{\"code\":\"OWLRL.CAX_DW\",\"rule\":\"cax-dw\",\"severity\":\"error\",\"message\":\"m \\\"1\\\"\"}]"
            .to_string()]
    );
    assert_eq!(
        diagnostic_lines(&diags, ErrorFormat::Ndjson, Some(5)).len(),
        2
    );
    assert_eq!(diagnostic_lines(&diags, ErrorFormat::Json, Some(0)), vec!["[]".to_string()]);
    assert!(should_fail(&vec!["prp-irp".to_string()], &diags));
    assert!(!should_fail(&vec!["cls-nothing2".to_string()], &diags));
}

// ---- builder ---------------------------------------------------------------

#[test]
fn builder_loads_strings_and_triples() {
    let t = make_triple(named("urn:x"), named("urn:p"), named("urn:y")).unwrap();
    let mut r = ReasonerBuilder::new()
        .with_triples_str(vec![("urn:p", RDFS_DOMAIN, "urn:D")])
        .with_triples(vec![t])
        .build(Vec::new())
        .unwrap();
    assert_eq!(r.get_input().len(), 4);
    r.reason();
    let out = sorted_output(&r);
    assert!(out.contains(&triple("urn:x", RDF_TYPE, "urn:D")));
}

#[test]
fn builder_takes_files_in_order() {
    let b = ReasonerBuilder::new()
        .with_file("a.ttl".to_string())
        .with_file("b.n3".to_string());
    assert_eq!(b.files(), &["a.ttl".to_string(), "b.n3".to_string()]);
    let first = make_triple(named("urn:a"), named("urn:p"), named("urn:b")).unwrap();
    let second = make_triple(named("urn:c"), named("urn:p"), named("urn:d")).unwrap();
    let r = b.build(vec![Ok(vec![first]), Ok(vec![second])]).unwrap();
    assert_eq!(r.get_input().len(), 4);
}

#[test]
fn builder_stops_at_first_failed_file() {
    let b = ReasonerBuilder::new()
        .with_file("a.ttl".to_string())
        .with_file("b.xml".to_string())
        .with_file("c.xml".to_string());
    let loaded = vec![
        Ok(Vec::new()),
        Err(ReasonableError::IO("first".to_string())),
        Err(ReasonableError::IO("second".to_string())),
    ];
    match b.build(loaded) {
        Err(ReasonableError::IO(m)) => assert_eq!(m, "first"),
        _ => panic!("expected the first error"),
    }
}

// ---- documents -------------------------------------------------------------

#[test]
fn turtle_documents_parse_into_terms() {
    let doc = b"@prefix ex: <urn:ex:> .\nex:s ex:p \"a\\\"b\"@en , \"1\"^^<http://www.w3.org/2001/XMLSchema#integer> , \"x\"^^<http://www.w3.org/2001/XMLSchema#string> , _:b .";
    let v = parse_document(FileFormat::Turtle, doc).unwrap();
    assert_eq!(v.len(), 4);
    assert_eq!(v[0].subject.to_string(), "<urn:ex:s>");
    assert_eq!(v[0].predicate.to_string(), "<urn:ex:p>");
    match &v[0].object {
        Term::Literal(Literal::LanguageTagged(val, lang)) => {
            assert_eq!(val, "a\"b");
            assert_eq!(lang, "en");
        }
        _ => panic!("expected a language-tagged literal"),
    }
    match &v[1].object {
        Term::Literal(Literal::Typed(val, dt)) => {
            assert_eq!(val, "1");
            assert_eq!(dt, "http://www.w3.org/2001/XMLSchema#integer");
        }
        _ => panic!("expected a typed literal"),
    }
    match &v[2].object {
        Term::Literal(Literal::Simple(val)) => assert_eq!(val, "x"),
        _ => panic!("expected a simple literal"),
    }
    assert!(matches!(&v[3].object, Term::BlankNode(_)));
}

#[test]
fn ntriples_documents_parse_and_escapes_are_read() {
    let doc = b"<urn:s> <urn:p> \"line\\nnext\\\\\" .\n";
    let v = parse_document(FileFormat::NTriples, doc).unwrap();
    assert_eq!(v.len(), 1);
    match &v[0].object {
        Term::Literal(Literal::Simple(val)) => assert_eq!(val, "line\nnext\\"),
        _ => panic!("expected a simple literal"),
    }
}

#[test]
fn a_malformed_document_is_a_turtle_error() {
    match parse_document(FileFormat::Turtle, b"<urn:s> <urn:p> .") {
        Err(ReasonableError::Turtle(_)) => {}
        _ => panic!("expected a Turtle error"),
    }
}

#[test]
fn quoted_triples_are_refused() {
    match parse_document(FileFormat::Turtle, b"<< <urn:a> <urn:b> <urn:c> >> <urn:p> <urn:o> .") {
        Err(ReasonableError::Turtle(_)) => {}
        _ => panic!("expected a Turtle error"),
    }
}

#[test]
fn parse_file_goes_by_the_extension() {
    assert!(parse_file("a.ttl", b"<urn:s> <urn:p> <urn:o> .").is_ok());
    assert!(parse_file("a.n3", b"<urn:s> <urn:p> <urn:o> .").is_ok());
    assert!(matches!(parse_file("a.xml", b""), Err(ReasonableError::IO(_))));
}

#[test]
fn decode_reads_printed_terms() {
    assert_eq!(decode("<urn:a>").unwrap().to_string(), "<urn:a>");
    assert_eq!(decode("_:b1").unwrap().to_string(), "_:b1");
    assert!(decode("<< <urn:a> <urn:b> <urn:c> >>").is_none());
    assert!(decode("\"open").is_none());
}

#[test]
fn load_document_loads_and_reasons() {
    let mut r = Reasoner::new();
    let doc = format!(
        "<urn:p> <{}> <urn:D> .\n<urn:x> <urn:p> <urn:y> .\n",
        RDFS_DOMAIN
    );
    r.load_document("g.ttl", doc.as_bytes()).unwrap();
    assert_eq!(r.get_input().len(), 4);
    r.reason();
    assert!(sorted_output(&r).contains(&triple("urn:x", RDF_TYPE, "urn:D")));
}

#[test]
fn a_failed_load_document_changes_nothing() {
    let mut r = Reasoner::new();
    assert!(r.load_document("g.ttl", b"<urn:s> .").is_err());
    assert!(r.load_document("g.xml", b"").is_err());
    assert_eq!(r.get_input().len(), 2);
}

#[test]
fn literal_predicates_are_recognised() {
    assert!(suggests_literal("http://www.w3.org/2000/01/rdf-schema#label"));
    assert!(suggests_literal("http://purl.org/dc/elements/1.1/title"));
    assert!(!suggests_literal("http://www.w3.org/1999/02/22-rdf-syntax-ns#type"));
}

#[test]
fn escape_literal_writes_line_feeds_as_escapes() {
    assert_eq!(escape_literal("a\nb\n"), "a\\nb\\n");
    assert_eq!(escape_literal("plain"), "plain");
}

#[test]
fn build_documents_reads_each_file_in_its_format() {
    let b = ReasonerBuilder::new()
        .with_file("a.ttl".to_string())
        .with_file("b.n3".to_string());
    let docs = vec![
        b"@prefix ex: <urn:> . ex:a ex:p ex:b .".to_vec(),
        b"<urn:c> <urn:p> <urn:d> .\n".to_vec(),
    ];
    let r = b.build_documents(docs).unwrap();
    assert_eq!(r.get_input().len(), 4);
}

#[test]
fn build_documents_gives_the_first_failure() {
    let b = ReasonerBuilder::new()
        .with_file("a.ttl".to_string())
        .with_file("b.xml".to_string());
    let docs = vec![b"<urn:a> .".to_vec(), Vec::new()];
    assert!(matches!(b.build_documents(docs), Err(ReasonableError::Turtle(_))));
}

#[test]
fn control_characters_print_as_unicode_escapes() {
    let t = Term::Literal(Literal::Simple("\u{1}\t\u{7f}".to_string()));
    assert_eq!(t.to_string(), "\"\\u0001\\t\\u007F\"");
}

#[test]
fn a_literal_typed_xsd_string_is_the_simple_literal() {
    let mut r = Reasoner::new();
    let typed = make_triple(
        named("urn:s"),
        named("urn:p"),
        Term::Literal(Literal::Typed("a".to_string(), "http://www.w3.org/2001/XMLSchema#string".to_string())),
    )
    .unwrap();
    assert!(matches!(&typed.object, Term::Literal(Literal::Simple(_))));
    let raw = Triple {
        subject: named("urn:s"),
        predicate: named("urn:p"),
        object: Term::Literal(Literal::Typed("a".to_string(), "http://www.w3.org/2001/XMLSchema#string".to_string())),
    };
    let simple = Triple {
        subject: named("urn:s"),
        predicate: named("urn:p"),
        object: Term::Literal(Literal::Simple("a".to_string())),
    };
    r.load_triples(vec![raw]);
    r.load_triples(vec![simple]);
    assert_eq!(r.get_input().len(), 3);
    assert_eq!(r.get_input()[2].object.to_string(), "\"a\"");
}
