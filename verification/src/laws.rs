//! Properties of the reasoner that relate several of its operations.
use vstd::prelude::*;
use crate::relation::{KeyedTriple, URI, sorted_strict, triple_lt};
use crate::rules::{Vocab, has};
use crate::common::TermView;
use crate::complement::{complementary, complement_instance, derives_complement};
use crate::reasoner::{Reasoner, loaded_into, seed, loaded_triple, stands_for, materialized, input_lists, rendered, renders, triple_view_of, add_report, add_reports, fresh_reports, reports_of, lemma_reports_of_contains, violation_report};
use crate::rules::closed;
use crate::complement::{complement_closed, first_fixed_stage, stage};
use crate::common::TripleView;
use crate::index::{URIIndex, sentinel};
use crate::reasoner::ends_with;
use crate::common::{newlines_escaped, canonical, xsd_string, oxrdf_quoted, escaped_str, escaped_char, hex_digit};
use crate::document::{unquote, unescaped, decode_term, literal_of};
use crate::cli::{shown, json_escaped, eq_ignore_ascii_case, ascii_lower, lowered, lemma_eq_ignore_lowered, trim, trim_start, trim_end, is_ws};
use crate::rdf_lists::{list_members, greatest_first, rest_linked};
use crate::diagnostics::{ReasoningErrorView, ReasonerOptions, new_error_view};

verus! {

/// Two strictly ascending sequences with the same elements are equal.
pub proof fn lemma_sorted_same_set(a: Seq<KeyedTriple>, b: Seq<KeyedTriple>)
    requires
        sorted_strict(a),
        sorted_strict(b),
        forall|t: KeyedTriple| #![trigger a.contains(t)] #![trigger b.contains(t)] a.contains(t) <==> b.contains(t),
    ensures
        a == b,
    decreases a.len() + b.len(),
{
    if a.len() == 0 {
        if b.len() > 0 {
            assert(b.contains(b[0]));
        }
        assert(a =~= b);
    } else if b.len() == 0 {
        assert(a.contains(a[0]));
    } else {
        assert(a.contains(a[0]));
        assert(b.contains(b[0]));
        let i = choose|i: int| 0 <= i < b.len() && b[i] == a[0];
        let j = choose|j: int| 0 <= j < a.len() && a[j] == b[0];
        if i > 0 {
            assert(triple_lt(b[0], b[i]));
            if j > 0 {
                assert(triple_lt(a[0], a[j]));
            }
        }
        assert(a[0] == b[0]) by {
            if i > 0 && j > 0 {
                assert(triple_lt(b[0], a[0]));
                assert(triple_lt(a[0], b[0]));
            }
        }
        let a1 = a.drop_first();
        let b1 = b.drop_first();
        assert forall|t: KeyedTriple| #![trigger a1.contains(t)] #![trigger b1.contains(t)] a1.contains(t) <==> b1.contains(t) by {
            if a1.contains(t) {
                let k = choose|k: int| 0 <= k < a1.len() && a1[k] == t;
                assert(a[k + 1] == t);
                assert(triple_lt(a[0], t));
                assert(b.contains(t));
                let q = choose|q: int| 0 <= q < b.len() && b[q] == t;
                assert(q != 0);
                assert(b1[q - 1] == t);
            }
            if b1.contains(t) {
                let k = choose|k: int| 0 <= k < b1.len() && b1[k] == t;
                assert(b[k + 1] == t);
                assert(triple_lt(b[0], t));
                assert(a.contains(t));
                let q = choose|q: int| 0 <= q < a.len() && a[q] == t;
                assert(q != 0);
                assert(a1[q - 1] == t);
            }
        }
        lemma_sorted_same_set(a1, b1);
        assert(a =~= seq![a[0]] + a1);
        assert(b =~= seq![b[0]] + b1);
    }
}

/// Reasoning again over what reasoning produced changes nothing, as long as
/// the lists that the rules read are the same.
pub proof fn law_reason_idempotent(v: Vocab, input: Seq<KeyedTriple>, closure: Seq<KeyedTriple>, again: Seq<KeyedTriple>)
    requires
        materialized(v, input, closure),
        materialized(v, closure, again),
        input_lists(v, closure) == input_lists(v, input),
    ensures
        again == closure,
{
    assert forall|t: KeyedTriple| #[trigger] derives_complement(v, closure.to_set(), t) implies closure.to_set().contains(t) by {
        assert(closure.contains(t));
    }
    assert forall|t: KeyedTriple| #![trigger again.contains(t)] #![trigger closure.contains(t)] again.contains(t) <==> closure.contains(t) by {
        assert(again.to_set().contains(t) <==> again.contains(t));
        assert(closure.to_set().contains(t) <==> closure.contains(t));
    }
    lemma_sorted_same_set(again, closure);
}

/// Complementary classes split the instances: every instance of the closure
/// is typed with one of them.
pub proof fn law_complement_partition(
    v: Vocab,
    input: Seq<KeyedTriple>,
    closure: Seq<KeyedTriple>,
    c1: URI,
    c2: URI,
    x: URI,
    c: URI,
)
    requires
        materialized(v, input, closure),
        complementary(v, closure.to_set(), c1, c2),
        has(closure.to_set(), x, v.rdf_type, c),
    ensures
        has(closure.to_set(), x, v.rdf_type, c1) || has(closure.to_set(), x, v.rdf_type, c2),
{
    let S = closure.to_set();
    if !S.contains((x, (v.rdf_type, c1))) {
        let t = (x, (v.rdf_type, c2));
        assert(complement_instance(v, S, t, c1, c2, x, c));
        assert(derives_complement(v, S, t));
        assert(closure.contains(t));
    }
}

/// A triple of the sequence that renders is in the rendered output.
proof fn lemma_rendered_contains(terms: Seq<TermView>, s: Seq<KeyedTriple>, t: KeyedTriple)
    requires
        s.contains(t),
        renders(terms, t, true),
    ensures
        rendered(terms, s, true).contains(triple_view_of(terms, t)),
    decreases s.len(),
{
    let rest = rendered(terms, s.drop_last(), true);
    if s.last() == t {
        assert(rendered(terms, s, true) == rest.push(triple_view_of(terms, t)));
        assert(rendered(terms, s, true)[rest.len() as int] == triple_view_of(terms, t));
    } else {
        let k = choose|k: int| 0 <= k < s.len() && s[k] == t;
        assert(s.drop_last()[k] == t);
        lemma_rendered_contains(terms, s.drop_last(), t);
        let q = choose|q: int| 0 <= q < rest.len() && rest[q] == triple_view_of(terms, t);
        if renders(terms, s.last(), true) {
            assert(rendered(terms, s, true)[q] == rest[q]);
        }
    }
}

/// Every input triple that makes a well-formed triple of terms (and does not
/// use the reserved identifier) is in the output of reasoning.
pub proof fn law_input_in_output(
    v: Vocab,
    terms: Seq<TermView>,
    input: Seq<KeyedTriple>,
    closure: Seq<KeyedTriple>,
    t: KeyedTriple,
)
    requires
        materialized(v, input, closure),
        input.contains(t),
        renders(terms, t, true),
    ensures
        rendered(terms, closure, true).contains(triple_view_of(terms, t)),
{
    assert(closure.contains(t));
    lemma_rendered_contains(terms, closure, t);
}

} // verus!

verus! {

/// Reasoning again, when the last round's closure is the input and is
/// already closed, records no diagnostic: every violation of the new closure
/// was a violation of the last round.
pub proof fn law_repeat_reports_nothing(
    v: Vocab,
    terms: Seq<TermView>,
    input: Seq<KeyedTriple>,
    again: Seq<KeyedTriple>,
    reports: Seq<(Seq<char>, Seq<char>)>,
    opts: ReasonerOptions,
    errors: Seq<ReasoningErrorView>,
    seen: Seq<(Seq<char>, Seq<char>)>,
)
    requires
        materialized(v, input, again),
        closed(v, input_lists(v, input), input.to_set()),
        complement_closed(v, input.to_set()),
        reports_of(v, terms, again.to_set(), reports),
    ensures
        fresh_reports(v, terms, input.to_set(), reports).len() == 0,
        add_reports(opts, errors, seen, fresh_reports(v, terms, input.to_set(), reports)) == (errors, seen),
{
    let S = input.to_set();
    assert(again.to_set() == S);
    let pred = |q: (Seq<char>, Seq<char>)| !violation_report(v, terms, S, q);
    let f = reports.filter(pred);
    reports.filter_lemma(pred);
    if f.len() > 0 {
        let q = f[0];
        assert(f.contains(q));
        reports.lemma_filter_contains_rev(pred, q);
        lemma_reports_of_contains(v, terms, S, reports, q);
        assert(pred(q));
    }
    assert(f =~= Seq::<(Seq<char>, Seq<char>)>::empty());
}

/// The key that deduplication compares diagnostics by.
pub open spec fn diag_key(e: ReasoningErrorView) -> (Seq<char>, Seq<char>) {
    (e.code, e.message)
}

/// No two diagnostics share a key, and every key is remembered.
pub open spec fn keys_distinct(errors: Seq<ReasoningErrorView>, seen: Seq<(Seq<char>, Seq<char>)>) -> bool {
    &&& forall|i: int, j: int| 0 <= i < j < errors.len() ==> diag_key(#[trigger] errors[i]) != diag_key(#[trigger] errors[j])
    &&& forall|i: int| 0 <= i < errors.len() ==> seen.contains(diag_key(#[trigger] errors[i]))
}

/// With collection off, reports change nothing.
pub proof fn law_no_collection(
    opts: ReasonerOptions,
    errors: Seq<ReasoningErrorView>,
    seen: Seq<(Seq<char>, Seq<char>)>,
    reports: Seq<(Seq<char>, Seq<char>)>,
)
    requires
        !opts.collect_diagnostics,
    ensures
        add_reports(opts, errors, seen, reports) == (errors, seen),
    decreases reports.len(),
{
    if reports.len() > 0 {
        law_no_collection(opts, errors, seen, reports.drop_last());
    }
}

/// Reports never remove or reorder the diagnostics already kept.
pub proof fn law_reports_extend(
    opts: ReasonerOptions,
    errors: Seq<ReasoningErrorView>,
    seen: Seq<(Seq<char>, Seq<char>)>,
    reports: Seq<(Seq<char>, Seq<char>)>,
)
    ensures
        errors.is_prefix_of(add_reports(opts, errors, seen, reports).0),
    decreases reports.len(),
{
    if reports.len() > 0 {
        law_reports_extend(opts, errors, seen, reports.drop_last());
    }
}

/// Collecting without deduplication or maximum keeps one diagnostic per
/// report, in order.
pub proof fn law_collect_all(
    opts: ReasonerOptions,
    errors: Seq<ReasoningErrorView>,
    seen: Seq<(Seq<char>, Seq<char>)>,
    reports: Seq<(Seq<char>, Seq<char>)>,
)
    requires
        opts.collect_diagnostics,
        !opts.dedupe,
        opts.max_diagnostics is None,
    ensures
        add_reports(opts, errors, seen, reports).0 == errors + reports.map_values(
            |r: (Seq<char>, Seq<char>)| new_error_view(r.0, r.1),
        ),
        add_reports(opts, errors, seen, reports).1 == seen,
    decreases reports.len(),
{
    let f = |r: (Seq<char>, Seq<char>)| new_error_view(r.0, r.1);
    if reports.len() > 0 {
        law_collect_all(opts, errors, seen, reports.drop_last());
        assert(reports.map_values(f) =~= reports.drop_last().map_values(f).push(f(reports.last())));
        assert(errors + reports.map_values(f) =~= (errors + reports.drop_last().map_values(f)).push(f(reports.last())));
    } else {
        assert(errors + reports.map_values(f) =~= errors);
    }
}

/// With deduplication, no two kept diagnostics share code and message.
pub proof fn law_dedupe(
    opts: ReasonerOptions,
    errors: Seq<ReasoningErrorView>,
    seen: Seq<(Seq<char>, Seq<char>)>,
    reports: Seq<(Seq<char>, Seq<char>)>,
)
    requires
        opts.dedupe,
        keys_distinct(errors, seen),
    ensures
        keys_distinct(add_reports(opts, errors, seen, reports).0, add_reports(opts, errors, seen, reports).1),
    decreases reports.len(),
{
    if reports.len() > 0 {
        law_dedupe(opts, errors, seen, reports.drop_last());
        let (e, s) = add_reports(opts, errors, seen, reports.drop_last());
        let r = reports.last();
        let err = new_error_view(r.0, r.1);
        let (e2, s2) = add_report(opts, e, s, r.0, r.1);
        if opts.collect_diagnostics && !s.contains(diag_key(err)) {
            assert forall|i: int| 0 <= i < e2.len() implies s2.contains(diag_key(#[trigger] e2[i])) by {
                if i < e.len() {
                    assert(e2[i] == e[i]);
                    assert(s.contains(diag_key(e[i])));
                    let k = choose|k: int| 0 <= k < s.len() && s[k] == diag_key(e[i]);
                    assert(s2[k] == diag_key(e[i]));
                } else {
                    assert(s2[s.len() as int] == diag_key(err));
                }
            }
            assert forall|i: int, j: int| 0 <= i < j < e2.len() implies diag_key(#[trigger] e2[i]) != diag_key(#[trigger] e2[j]) by {
                if j >= e.len() {
                    assert(e2[i] == e[i]);
                    assert(s.contains(diag_key(e[i])));
                }
            }
        }
    }
}

/// With a maximum, no more diagnostics than the maximum are kept.
pub proof fn law_max(
    opts: ReasonerOptions,
    errors: Seq<ReasoningErrorView>,
    seen: Seq<(Seq<char>, Seq<char>)>,
    reports: Seq<(Seq<char>, Seq<char>)>,
    n: usize,
)
    requires
        opts.max_diagnostics == Some(n),
        errors.len() <= n,
    ensures
        add_reports(opts, errors, seen, reports).0.len() <= n,
    decreases reports.len(),
{
    if reports.len() > 0 {
        law_max(opts, errors, seen, reports.drop_last(), n);
    }
}

} // verus!

verus! {

/// Loading triples into a new reasoner and reading back the base gives the
/// two seed triples and the loaded triples, and nothing else.
pub proof fn law_load_then_base(r0: Reasoner, r1: Reasoner, tvs: Seq<TripleView>)
    requires
        r0.wf(),
        r0.input() == seq![
            (r0.vocab().owl_thing, (r0.vocab().rdf_type, r0.vocab().owl_class)),
            (r0.vocab().owl_nothing, (r0.vocab().rdf_type, r0.vocab().owl_class)),
        ],
        r0.base() == r0.input(),
        loaded_into(r0, r1, tvs),
    ensures
        forall|t: KeyedTriple|
            #[trigger] r1.base().contains(t) <==> (seed(r1.vocab(), t) || loaded_triple(r1.terms(), tvs, t)),
{
    assert forall|t: KeyedTriple| #[trigger] r1.base().contains(t) <==> (seed(r1.vocab(), t) || loaded_triple(r1.terms(), tvs, t)) by {
        if seed(r1.vocab(), t) {
            assert(r0.base()[0] == t || r0.base()[1] == t);
            assert(r0.base().contains(t));
        }
        if r0.base().contains(t) {
            let i = choose|i: int| 0 <= i < r0.base().len() && r0.base()[i] == t;
            assert(i == 0 || i == 1);
        }
    }
}

/// Loading the same triples a second time leaves the base as it was.
pub proof fn law_load_twice(r0: Reasoner, r1: Reasoner, r2: Reasoner, tvs: Seq<TripleView>)
    requires
        loaded_into(r0, r1, tvs),
        loaded_into(r1, r2, tvs),
    ensures
        r2.base() == r1.base(),
{
    r2.lemma_wf();
    assert forall|t: KeyedTriple| #[trigger] loaded_triple(r2.terms(), tvs, t) implies r1.input().contains(t) by {
        let i = choose|i: int| 0 <= i < tvs.len() && stands_for(r2.terms(), t, #[trigger] tvs[i]);
        assert(crate::reasoner::interned(r1.terms(), tvs[i]));
        let t1 = choose|t1: KeyedTriple| #[trigger] stands_for(r1.terms(), t1, tvs[i]);
        assert(r2.terms()[t1.0 as int] == r1.terms()[t1.0 as int]);
        assert(r2.terms()[t1.1.0 as int] == r1.terms()[t1.1.0 as int]);
        assert(r2.terms()[t1.1.1 as int] == r1.terms()[t1.1.1 as int]);
        assert(t1 == t);
        assert(loaded_triple(r1.terms(), tvs, t1));
    }
}

/// The lists of a graph depend only on which triples it holds.
proof fn lemma_lists_by_set(v: Vocab, a: Seq<KeyedTriple>, b: Seq<KeyedTriple>)
    requires
        a.to_set() == b.to_set(),
    ensures
        input_lists(v, a) == input_lists(v, b),
{
    assert forall|t: KeyedTriple| a.contains(t) <==> b.contains(t) by {
        assert(a.to_set().contains(t) <==> a.contains(t));
        assert(b.to_set().contains(t) <==> b.contains(t));
    }
    assert forall|l: URI| #[trigger] input_lists(v, a)(l) == input_lists(v, b)(l) by {
        assert forall|w: URI| #[trigger] list_members(a, v.rdf_first, v.rdf_rest, v.rdf_nil, l).contains(w)
            <==> list_members(b, v.rdf_first, v.rdf_rest, v.rdf_nil, l).contains(w) by {
            assert forall|k: URI, x: URI| greatest_first(a, v.rdf_first, k, x) <==> greatest_first(b, v.rdf_first, k, x) by {}
            assert forall|k: URI| rest_linked(a, v.rdf_rest, v.rdf_nil, l, k) <==> rest_linked(b, v.rdf_rest, v.rdf_nil, l, k) by {}
        }
        assert(list_members(a, v.rdf_first, v.rdf_rest, v.rdf_nil, l) =~= list_members(b, v.rdf_first, v.rdf_rest, v.rdf_nil, l));
    }
    assert(input_lists(v, a) =~= input_lists(v, b));
}

/// What reasoning makes of an input depends only on which triples the input
/// holds: in particular, `clear` followed by `reason` gives what a new
/// reasoner given the same triples gives.
pub proof fn law_reason_depends_on_input_set(v: Vocab, a: Seq<KeyedTriple>, b: Seq<KeyedTriple>, ca: Seq<KeyedTriple>, cb: Seq<KeyedTriple>)
    requires
        a.to_set() == b.to_set(),
        materialized(v, a, ca),
        materialized(v, b, cb),
    ensures
        ca == cb,
{
    lemma_lists_by_set(v, a, b);
    let L = input_lists(v, a);
    let B = a.to_set();
    let ka = choose|k: nat| #[trigger] first_fixed_stage(v, L, B, k) && ca.to_set() == stage(v, L, B, k);
    let kb = choose|k: nat| #[trigger] first_fixed_stage(v, L, B, k) && cb.to_set() == stage(v, L, B, k);
    if ka < kb {
        assert(!complement_closed(v, stage(v, L, B, ka)));
    } else if kb < ka {
        assert(!complement_closed(v, stage(v, L, B, kb)));
    }
    assert(ca.to_set() == cb.to_set());
    assert forall|t: KeyedTriple| ca.contains(t) <==> cb.contains(t) by {
        assert(ca.to_set().contains(t) <==> ca.contains(t));
        assert(cb.to_set().contains(t) <==> cb.contains(t));
    }
    lemma_sorted_same_set(ca, cb);
}

/// With deduplication and a maximum `n`, recording reports keeps the
/// diagnostics at most `n` and pairwise distinct in code and message; a new
/// reasoner starts with none, so every state reached this way keeps both.
pub proof fn law_diagnostics_bounded(
    opts: ReasonerOptions,
    errors: Seq<ReasoningErrorView>,
    seen: Seq<(Seq<char>, Seq<char>)>,
    reports: Seq<(Seq<char>, Seq<char>)>,
    n: usize,
)
    requires
        opts.dedupe,
        opts.max_diagnostics == Some(n),
        keys_distinct(errors, seen),
        errors.len() <= n,
    ensures
        add_reports(opts, errors, seen, reports).0.len() <= n,
        keys_distinct(add_reports(opts, errors, seen, reports).0, add_reports(opts, errors, seen, reports).1),
        keys_distinct(Seq::empty(), Seq::empty()),
{
    law_dedupe(opts, errors, seen, reports);
    law_max(opts, errors, seen, reports, n);
}

/// The number of backslashes and double quotes in `s`.
pub open spec fn json_specials(s: Seq<char>) -> nat
    decreases s.len(),
{
    if s.len() == 0 {
        0
    } else {
        json_specials(s.drop_last()) + if s.last() == '\\' || s.last() == '"' {
            1nat
        } else {
            0nat
        }
    }
}

/// Reads a JSON-escaped string back: a backslash stands for the character
/// after it.
pub open spec fn json_unescaped(s: Seq<char>) -> Seq<char>
    decreases s.len(),
{
    if s.len() == 0 {
        Seq::empty()
    } else if s[0] == '\\' && s.len() >= 2 {
        seq![s[1]] + json_unescaped(s.subrange(2, s.len() as int))
    } else {
        seq![s[0]] + json_unescaped(s.subrange(1, s.len() as int))
    }
}

proof fn lemma_json_escaped_append(a: Seq<char>, b: Seq<char>)
    ensures
        json_escaped(a + b) == json_escaped(a) + json_escaped(b),
    decreases b.len(),
{
    if b.len() == 0 {
        assert(a + b =~= a);
        assert(json_escaped(b) =~= Seq::<char>::empty());
        assert(json_escaped(a) + json_escaped(b) =~= json_escaped(a));
    } else {
        lemma_json_escaped_append(a, b.drop_last());
        assert((a + b).drop_last() =~= a + b.drop_last());
        assert((a + b).last() == b.last());
    }
}

/// Escaping for JSON adds one backslash per backslash and double quote, and
/// reading the escaped string back gives the string again.
pub proof fn law_json_escape(s: Seq<char>)
    ensures
        json_escaped(s).len() == s.len() + json_specials(s),
        json_unescaped(json_escaped(s)) == s,
    decreases s.len(),
{
    if s.len() > 0 {
        law_json_escape(s.drop_last());
        let c = s[0];
        let rest = s.subrange(1, s.len() as int);
        law_json_escape(rest);
        assert(s =~= seq![c] + rest);
        lemma_json_escaped_append(seq![c], rest);
        let one = json_escaped(seq![c]);
        assert(seq![c].drop_last() =~= Seq::<char>::empty());
        assert(seq![c].last() == c);
        assert(json_escaped(Seq::<char>::empty()) =~= Seq::<char>::empty());
        let e = json_escaped(s);
        assert(e == one + json_escaped(rest));
        if c == '\\' || c == '"' {
            assert(one =~= seq!['\\', c]);
            assert(e.subrange(2, e.len() as int) =~= json_escaped(rest));
        } else {
            assert(one =~= seq![c]);
            assert(e.subrange(1, e.len() as int) =~= json_escaped(rest));
        }
        assert(json_unescaped(e) =~= seq![c] + rest);
    }
}

/// Interning: identifier 0 only ever names the reserved term, each term has
/// one identifier, and identifiers handed out earlier keep their terms.
pub proof fn law_index_put(ix0: URIIndex, ix1: URIIndex, a: TermView, id: URI)
    requires
        ix0.wf(),
        ix1.wf(),
        ix0@.is_prefix_of(ix1@),
        id < ix1@.len(),
        ix1@[id as int] == a,
    ensures
        a != sentinel() ==> id != 0,
        forall|j: int| 0 <= j < ix1@.len() && ix1@[j] == a ==> j == id,
        forall|j: int| 0 <= j < ix0@.len() ==> ix1@[j] == ix0@[j],
{
    ix1.lemma_distinct();
}

} // verus!

verus! {

/// Equality up to ASCII case, which `--fail-on` entries are matched by, is
/// the equality of the ASCII lower cases: it holds only between strings of
/// the same length, it is reflexive and symmetric, and a character differing
/// other than in ASCII case breaks it.
pub proof fn law_eq_ignore_ascii_case(a: Seq<char>, b: Seq<char>)
    ensures
        eq_ignore_ascii_case(a, b) <==> lowered(a) == lowered(b),
        eq_ignore_ascii_case(a, b) ==> a.len() == b.len(),
        eq_ignore_ascii_case(a, b) == eq_ignore_ascii_case(b, a),
        eq_ignore_ascii_case(a, a),
        forall|i: int| 0 <= i < a.len() && i < b.len() && ascii_lower(#[trigger] a[i]) != ascii_lower(#[trigger] b[i])
            ==> !eq_ignore_ascii_case(a, b),
{
    lemma_eq_ignore_lowered(a, b);
    lemma_eq_ignore_lowered(b, a);
    lemma_eq_ignore_lowered(a, a);
}

/// A `--fail-on` entry names a diagnostic only as a whole: once trimmed, it
/// has the length of the diagnostic's code or of its rule, so an entry
/// shorter than both (a mere prefix) never names it.
pub proof fn law_fail_on_whole_name(entry: Seq<char>, code: Seq<char>, rule: Seq<char>)
    ensures
        eq_ignore_ascii_case(trim(entry), code) || eq_ignore_ascii_case(trim(entry), rule) ==> trim(entry).len()
            == code.len() || trim(entry).len() == rule.len(),
        trim(entry).len() < code.len() && trim(entry).len() < rule.len() ==> !eq_ignore_ascii_case(trim(entry), code)
            && !eq_ignore_ascii_case(trim(entry), rule),
{
    law_eq_ignore_ascii_case(trim(entry), code);
    law_eq_ignore_ascii_case(trim(entry), rule);
}

} // verus!

verus! {

proof fn lemma_trim_start(s: Seq<char>)
    ensures
        exists|lo: int|
            0 <= lo <= s.len() && trim_start(s) == s.subrange(lo, s.len() as int) && (forall|k: int|
                0 <= k < lo ==> is_ws(#[trigger] s[k])) && (lo < s.len() ==> !is_ws(s[lo])),
    decreases s.len(),
{
    if s.len() > 0 && is_ws(s[0]) {
        lemma_trim_start(s.drop_first());
        let t = s.drop_first();
        let lo = choose|lo: int|
            0 <= lo <= t.len() && trim_start(t) == t.subrange(lo, t.len() as int) && (forall|k: int|
                0 <= k < lo ==> is_ws(#[trigger] t[k])) && (lo < t.len() ==> !is_ws(t[lo]));
        assert(t.subrange(lo, t.len() as int) =~= s.subrange(lo + 1, s.len() as int));
        assert forall|k: int| 0 <= k < lo + 1 implies is_ws(#[trigger] s[k]) by {
            if k > 0 {
                assert(s[k] == t[k - 1]);
            }
        }
        assert(0 <= lo + 1 <= s.len() && trim_start(s) == s.subrange(lo + 1, s.len() as int));
    } else {
        assert(s.subrange(0, s.len() as int) =~= s);
    }
}

proof fn lemma_trim_end(s: Seq<char>)
    ensures
        exists|hi: int|
            0 <= hi <= s.len() && trim_end(s) == s.subrange(0, hi) && (forall|k: int|
                hi <= k < s.len() ==> is_ws(#[trigger] s[k])) && (hi > 0 ==> !is_ws(s[hi - 1])),
    decreases s.len(),
{
    if s.len() > 0 && is_ws(s.last()) {
        lemma_trim_end(s.drop_last());
        let t = s.drop_last();
        let hi = choose|hi: int|
            0 <= hi <= t.len() && trim_end(t) == t.subrange(0, hi) && (forall|k: int|
                hi <= k < t.len() ==> is_ws(#[trigger] t[k])) && (hi > 0 ==> !is_ws(t[hi - 1]));
        assert(t.subrange(0, hi) =~= s.subrange(0, hi));
        assert forall|k: int| hi <= k < s.len() implies is_ws(#[trigger] s[k]) by {
            if k < t.len() {
                assert(s[k] == t[k]);
            }
        }
        if hi > 0 {
            assert(s[hi - 1] == t[hi - 1]);
        }
    } else {
        assert(s.subrange(0, s.len() as int) =~= s);
    }
}

/// Trimming a `--fail-on` entry removes exactly its leading and trailing
/// white space: what remains is a contiguous part of the entry that neither
/// starts nor ends with white space, and everything removed is white space.
pub proof fn law_trim(s: Seq<char>)
    ensures
        exists|lo: int, hi: int|
            0 <= lo <= hi <= s.len() && #[trigger] trim(s) == s.subrange(lo, hi) && (forall|k: int|
                0 <= k < lo ==> is_ws(#[trigger] s[k])) && (forall|k: int| hi <= k < s.len() ==> is_ws(#[trigger] s[k])),
        trim(s).len() > 0 ==> !is_ws(trim(s)[0]) && !is_ws(trim(s).last()),
{
    lemma_trim_start(s);
    let lo = choose|lo: int|
        0 <= lo <= s.len() && trim_start(s) == s.subrange(lo, s.len() as int) && (forall|k: int|
            0 <= k < lo ==> is_ws(#[trigger] s[k])) && (lo < s.len() ==> !is_ws(s[lo]));
    let t = trim_start(s);
    lemma_trim_end(t);
    let h = choose|hi: int|
        0 <= hi <= t.len() && trim_end(t) == t.subrange(0, hi) && (forall|k: int|
            hi <= k < t.len() ==> is_ws(#[trigger] t[k])) && (hi > 0 ==> !is_ws(t[hi - 1]));
    assert(t.subrange(0, h) =~= s.subrange(lo, lo + h));
    assert forall|k: int| lo + h <= k < s.len() implies is_ws(#[trigger] s[k]) by {
        assert(s[k] == t[k - lo]);
    }
    if trim(s).len() > 0 {
        assert(trim(s)[0] == s[lo]);
        assert(trim(s).last() == t[h - 1]);
    }
    assert(0 <= lo <= lo + h <= s.len() && trim(s) == s.subrange(lo, lo + h));
}

} // verus!

verus! {

/// The diagnostics printed under a limit are the first ones, as many as the
/// limit allows: all of them without a limit.
pub proof fn law_shown(es: Seq<ReasoningErrorView>, limit: Option<usize>)
    ensures
        shown(es, limit).is_prefix_of(es),
        shown(es, limit).len() == match limit {
            Some(n) => if n < es.len() { n as int } else { es.len() as int },
            None => es.len() as int,
        },
{
}

/// A name ends with a suffix exactly when it is something followed by the
/// suffix.
pub proof fn law_ends_with(s: Seq<char>, suffix: Seq<char>)
    ensures
        ends_with(s, suffix) <==> exists|p: Seq<char>| #[trigger] (p + suffix) == s,
{
    if ends_with(s, suffix) {
        let p = s.subrange(0, s.len() - suffix.len());
        assert(p + suffix =~= s);
    }
    if exists|p: Seq<char>| #[trigger] (p + suffix) == s {
        let p = choose|p: Seq<char>| #[trigger] (p + suffix) == s;
        assert(s.subrange(s.len() - suffix.len(), s.len() as int) =~= suffix);
    }
}

/// The number of line feeds in `s`.
pub open spec fn line_feeds(s: Seq<char>) -> nat
    decreases s.len(),
{
    if s.len() == 0 {
        0
    } else {
        line_feeds(s.drop_last()) + if s.last() == '\n' {
            1nat
        } else {
            0nat
        }
    }
}

/// Escaping a literal's line feeds leaves none, and adds one character per
/// line feed.
pub proof fn law_newlines_escaped(s: Seq<char>)
    ensures
        !newlines_escaped(s).contains('\n'),
        newlines_escaped(s).len() == s.len() + line_feeds(s),
    decreases s.len(),
{
    if s.len() > 0 {
        law_newlines_escaped(s.drop_last());
        let a = newlines_escaped(s.drop_last());
        let r = newlines_escaped(s);
        if r.contains('\n') {
            let i = choose|i: int| 0 <= i < r.len() && r[i] == '\n';
            if i < a.len() {
                assert(r[i] == a[i]);
                assert(a.contains('\n'));
            }
        }
    }
}

} // verus!

verus! {

/// How rio writes one character of a quoted string: line feed, carriage
/// return, double quote and backslash behind a backslash.
pub open spec fn rio_escaped_char(c: char) -> Seq<char> {
    if c == '\n' {
        seq!['\\', 'n']
    } else if c == '\r' {
        seq!['\\', 'r']
    } else if c == '"' {
        seq!['\\', '"']
    } else if c == '\\' {
        seq!['\\', '\\']
    } else {
        seq![c]
    }
}

/// How rio writes the characters of a quoted string.
pub open spec fn rio_escaped(w: Seq<char>) -> Seq<char>
    decreases w.len(),
{
    if w.len() == 0 {
        Seq::empty()
    } else {
        rio_escaped_char(w[0]) + rio_escaped(w.drop_first())
    }
}

/// How rio prints a term (`Display`).
pub open spec fn rio_printed(t: TermView) -> Seq<char> {
    match t {
        TermView::NamedNode(i) => "<"@ + i + ">"@,
        TermView::BlankNode(b) => "_:"@ + b,
        TermView::Simple(v) => seq!['"'] + rio_escaped(v) + seq!['"'],
        TermView::LanguageTagged(v, l) => seq!['"'] + rio_escaped(v) + seq!['"'] + seq!['@'] + l,
        TermView::Typed(v, d) => seq!['"'] + rio_escaped(v) + seq!['"'] + seq!['^', '^', '<'] + d + seq!['>'],
    }
}

proof fn lemma_unquote_escaped(p: Seq<char>, w: Seq<char>, r: Seq<char>, acc: Seq<char>)
    ensures
        unquote(p + rio_escaped(w) + seq!['"'] + r, p.len() as int, acc) == Some(
            (acc + w, (p.len() + rio_escaped(w).len() + 1) as int),
        ),
    decreases w.len(),
{
    let s = p + rio_escaped(w) + seq!['"'] + r;
    if w.len() == 0 {
        assert(rio_escaped(w) =~= Seq::<char>::empty());
        assert(s[p.len() as int] == '"');
        assert(acc + w =~= acc);
    } else {
        let c = w[0];
        let e = rio_escaped_char(c);
        let p2 = p + e;
        let w2 = w.drop_first();
        assert(rio_escaped(w) == e + rio_escaped(w2));
        assert(s =~= p2 + rio_escaped(w2) + seq!['"'] + r);
        lemma_unquote_escaped(p2, w2, r, acc.push(c));
        assert(acc.push(c) + w2 =~= acc + w);
        assert(s[p.len() as int] == e[0]);
        if c == '\n' || c == '\r' || c == '"' || c == '\\' {
            assert(e.len() == 2);
            assert(s[p.len() + 1int] == e[1]);
            assert(unescaped(e[1]) == c);
        } else {
            assert(e =~= seq![c]);
        }
    }
}

/// Reading back what rio prints for a term gives the term (in canonical
/// form), for every term whose IRIs are not empty and do not start with `<`
/// (an IRI never does).
pub proof fn law_decode_printed_term(t: TermView)
    requires
        t matches TermView::NamedNode(i) ==> i.len() > 0 && i[0] != '<',
    ensures
        decode_term(rio_printed(t)) == Some(canonical(t)),
{
    let s = rio_printed(t);
    reveal_strlit("<");
    reveal_strlit(">");
    reveal_strlit("_:");
    match t {
        TermView::NamedNode(i) => {
            assert(s[0] == '<' && s[1] == i[0]);
            assert(s.subrange(1, s.len() - 1) =~= i);
        },
        TermView::BlankNode(b) => {
            assert(s.subrange(2, s.len() as int) =~= b);
        },
        TermView::Simple(v) => {
            lemma_unquote_escaped(seq!['"'], v, Seq::empty(), Seq::empty());
            assert(s =~= seq!['"'] + rio_escaped(v) + seq!['"'] + Seq::<char>::empty());
            assert(Seq::<char>::empty() + v =~= v);
            assert(s.subrange(s.len() as int, s.len() as int) =~= Seq::<char>::empty());
        },
        TermView::LanguageTagged(v, l) => {
            let r = seq!['@'] + l;
            lemma_unquote_escaped(seq!['"'], v, r, Seq::empty());
            assert(s =~= seq!['"'] + rio_escaped(v) + seq!['"'] + r);
            assert(Seq::<char>::empty() + v =~= v);
            let j: int = (rio_escaped(v).len() + 2) as int;
            assert(s.subrange(j, s.len() as int) =~= r);
            assert(r.subrange(1, r.len() as int) =~= l);
        },
        TermView::Typed(v, d) => {
            let r = seq!['^', '^', '<'] + d + seq!['>'];
            lemma_unquote_escaped(seq!['"'], v, r, Seq::empty());
            assert(s =~= seq!['"'] + rio_escaped(v) + seq!['"'] + r);
            assert(Seq::<char>::empty() + v =~= v);
            let j: int = (rio_escaped(v).len() + 2) as int;
            assert(s.subrange(j, s.len() as int) =~= r);
            assert(r.subrange(3, r.len() - 1) =~= d);
        },
    }
}

} // verus!

verus! {

/// A control character (code point below 0x20, or 0x7F).
pub open spec fn is_control(c: char) -> bool {
    (c as int) <= 0x1F || (c as int) == 0x7F
}

proof fn lemma_escaped_str_plain(s: Seq<char>)
    ensures
        forall|i: int| 0 <= i < escaped_str(s).len() ==> !is_control(#[trigger] escaped_str(s)[i]),
        escaped_str(s).len() >= s.len(),
    decreases s.len(),
{
    if s.len() > 0 {
        lemma_escaped_str_plain(s.drop_last());
        let a = escaped_str(s.drop_last());
        let e = escaped_char(s.last());
        let c = s.last();
        if is_control(c) && c != '\u{08}' && c != '\t' && c != '\n' && c != '\u{0C}' && c != '\r' {
            lemma_char_nonnegative(c);
            let x = c as int;
            let d1 = x / 16;
            let d2 = x % 16;
            assert(0 <= x <= 0x7F);
            assert(0 <= d1 < 16 && 0 <= d2 < 16) by (nonlinear_arith)
                requires
                    0 <= x <= 0x7F,
                    d1 == x / 16,
                    d2 == x % 16,
            ;
            assert(!is_control(hex_digit(d1)) && !is_control(hex_digit(d2)));
        }
        assert forall|i: int| 0 <= i < escaped_str(s).len() implies !is_control(#[trigger] escaped_str(s)[i]) by {
            if i < a.len() {
                assert(escaped_str(s)[i] == a[i]);
            } else {
                assert(escaped_str(s)[i] == e[i - a.len()]);
            }
        }
    }
}

/// The printed form of a string literal is quoted and holds no control
/// character: line feeds, tabs and the other control characters are all
/// written as escapes.
pub proof fn law_oxrdf_quoted(v: Seq<char>)
    ensures
        oxrdf_quoted(v).len() >= v.len() + 2,
        oxrdf_quoted(v)[0] == '"',
        oxrdf_quoted(v).last() == '"',
        forall|i: int| 0 <= i < oxrdf_quoted(v).len() ==> !is_control(#[trigger] oxrdf_quoted(v)[i]),
{
    lemma_escaped_str_plain(v);
    let q = oxrdf_quoted(v);
    let e = escaped_str(v);
    assert forall|i: int| 0 <= i < q.len() implies !is_control(#[trigger] q[i]) by {
        if 0 < i < q.len() - 1 {
            assert(q[i] == e[i - 1]);
        }
    }
}

} // verus!

verus! {
/// A character's code point is not negative.
proof fn lemma_char_nonnegative(c: char)
    ensures
        0 <= (c as int),
{
}
} // verus!
