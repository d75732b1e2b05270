//! The decisions of the command-line front end: which diagnostics fail a
//! run, and how diagnostics are printed.
use vstd::prelude::*;
use crate::diagnostics::{ReasoningError, ReasoningErrorView, severity_name};

verus! {

/// Unicode `White_Space`, the characters that `str::trim` removes.
pub open spec fn is_ws(c: char) -> bool {
    ||| '\u{9}' <= c <= '\u{d}'
    ||| c == ' '
    ||| c == '\u{85}'
    ||| c == '\u{a0}'
    ||| c == '\u{1680}'
    ||| '\u{2000}' <= c <= '\u{200a}'
    ||| c == '\u{2028}'
    ||| c == '\u{2029}'
    ||| c == '\u{202f}'
    ||| c == '\u{205f}'
    ||| c == '\u{3000}'
}

fn ws(c: char) -> (r: bool)
    ensures
        r == is_ws(c),
{
    ('\u{9}' <= c && c <= '\u{d}') || c == ' ' || c == '\u{85}' || c == '\u{a0}' || c == '\u{1680}' || (
    '\u{2000}' <= c && c <= '\u{200a}') || c == '\u{2028}' || c == '\u{2029}' || c == '\u{202f}' || c
        == '\u{205f}' || c == '\u{3000}'
}

/// The string without its leading white space.
pub open spec fn trim_start(s: Seq<char>) -> Seq<char>
    decreases s.len(),
{
    if s.len() > 0 && is_ws(s[0]) {
        trim_start(s.drop_first())
    } else {
        s
    }
}

/// The string without its trailing white space.
pub open spec fn trim_end(s: Seq<char>) -> Seq<char>
    decreases s.len(),
{
    if s.len() > 0 && is_ws(s.last()) {
        trim_end(s.drop_last())
    } else {
        s
    }
}

/// The string without leading and trailing white space.
pub open spec fn trim(s: Seq<char>) -> Seq<char> {
    trim_end(trim_start(s))
}

/// The code point of the ASCII lower case of a character; other characters
/// are unchanged.
pub open spec fn ascii_lower(c: char) -> int {
    if 'A' <= c <= 'Z' {
        c as int + 32
    } else {
        c as int
    }
}

/// The strings are equal up to ASCII case.
pub open spec fn eq_ignore_ascii_case(a: Seq<char>, b: Seq<char>) -> bool {
    a.len() == b.len() && forall|i: int| 0 <= i < a.len() ==> ascii_lower(#[trigger] a[i]) == ascii_lower(b[i])
}

/// The code points of the ASCII lower case of each character of `s`.
pub open spec fn lowered(s: Seq<char>) -> Seq<int> {
    s.map_values(|c: char| ascii_lower(c))
}

/// Two strings are equal up to ASCII case exactly when their ASCII lower
/// cases are the same sequence.
pub proof fn lemma_eq_ignore_lowered(a: Seq<char>, b: Seq<char>)
    ensures
        eq_ignore_ascii_case(a, b) <==> lowered(a) == lowered(b),
{
    if lowered(a) == lowered(b) {
        assert(a.len() == lowered(a).len() && b.len() == lowered(b).len());
        assert forall|i: int| 0 <= i < a.len() implies ascii_lower(#[trigger] a[i]) == ascii_lower(b[i]) by {
            assert(lowered(a)[i] == lowered(b)[i]);
        }
    }
    if eq_ignore_ascii_case(a, b) {
        assert(lowered(a) =~= lowered(b));
    }
}

fn lower(c: char) -> (r: u32)
    ensures
        r == ascii_lower(c),
{
    if 'A' <= c && c <= 'Z' {
        (c as u32) + 32
    } else {
        c as u32
    }
}

/// Whether the characters `lo .. hi` of `s` equal `t` up to ASCII case.
fn eq_ignore_case_range(s: &str, lo: usize, hi: usize, t: &str) -> (r: bool)
    requires
        lo <= hi <= s@.len(),
    ensures
        r == eq_ignore_ascii_case(s@.subrange(lo as int, hi as int), t@),
        r == (hi - lo == t@.len() && forall|k: int| 0 <= k < t@.len() ==> ascii_lower(#[trigger] s@[lo + k]) == ascii_lower(t@[k])),
{
    let n = t.unicode_len();
    if hi - lo != n {
        return false;
    }
    let mut i: usize = 0;
    while i < n
        invariant
            lo <= hi <= s@.len(),
            n == t@.len(),
            hi - lo == n,
            0 <= i <= n,
            forall|k: int| 0 <= k < i ==> ascii_lower(s@[lo + k]) == ascii_lower(t@[k]),
        decreases n - i,
    {
        if lower(s.get_char(lo + i)) != lower(t.get_char(i)) {
            proof {
                assert(s@.subrange(lo as int, hi as int)[i as int] == s@[lo + i]);
            }
            return false;
        }
        i += 1;
    }
    proof {
        let sub = s@.subrange(lo as int, hi as int);
        assert forall|k: int| 0 <= k < sub.len() implies ascii_lower(#[trigger] sub[k]) == ascii_lower(t@[k]) by {
            assert(sub[k] == s@[lo + k]);
        }
        assert forall|k: int| 0 <= k < t@.len() implies ascii_lower(#[trigger] s@[lo + k]) == ascii_lower(t@[k]) by {}
    }
    true
}

/// The bounds of `s` without its leading and trailing white space.
fn trim_bounds(s: &str) -> (r: (usize, usize))
    ensures
        r.0 <= r.1 <= s@.len(),
        s@.subrange(r.0 as int, r.1 as int) == trim(s@),
{
    let n = s.unicode_len();
    proof {
        assert(s@.subrange(0, n as int) =~= s@);
    }
    let mut i: usize = 0;
    while i < n && ws(s.get_char(i))
        invariant
            n == s@.len(),
            0 <= i <= n,
            trim_start(s@) == trim_start(s@.subrange(i as int, n as int)),
        decreases n - i,
    {
        proof {
            let t = s@.subrange(i as int, n as int);
            assert(t[0] == s@[i as int]);
            assert(t.drop_first() =~= s@.subrange(i + 1, n as int));
        }
        i += 1;
    }
    proof {
        assert(trim_start(s@.subrange(i as int, n as int)) == s@.subrange(i as int, n as int)) by {
            if i < n {
                assert(s@.subrange(i as int, n as int)[0] == s@[i as int]);
            }
        }
    }
    let mut j: usize = n;
    while j > i && ws(s.get_char(j - 1))
        invariant
            n == s@.len(),
            0 <= i <= j <= n,
            trim(s@) == trim_end(s@.subrange(i as int, j as int)),
        decreases j - i,
    {
        proof {
            let t = s@.subrange(i as int, j as int);
            assert(t.last() == s@[j - 1]);
            assert(t.drop_last() =~= s@.subrange(i as int, j - 1));
        }
        j -= 1;
    }
    proof {
        if j > i {
            assert(s@.subrange(i as int, j as int).last() == s@[j - 1]);
        }
    }
    (i, j)
}

/// Whether a failure rule names the diagnostic with this code and rule:
/// some entry of `fail_on`, without surrounding white space, equals the code
/// or the rule up to ASCII case.
pub fn matches_fail(fail_on: &Vec<String>, code: &str, rule: &str) -> (r: bool)
    ensures
        r == exists|i: int|
            0 <= i < fail_on@.len() && (eq_ignore_ascii_case(trim((#[trigger] fail_on@[i])@), code@)
                || eq_ignore_ascii_case(trim(fail_on@[i]@), rule@)),
        r == exists|i: int|
            0 <= i < fail_on@.len() && (lowered(trim((#[trigger] fail_on@[i])@)) == lowered(code@) || lowered(
                trim(fail_on@[i]@),
            ) == lowered(rule@)),
{
    let mut i: usize = 0;
    while i < fail_on.len()
        invariant
            0 <= i <= fail_on@.len(),
            forall|k: int|
                0 <= k < i ==> !(eq_ignore_ascii_case(trim((#[trigger] fail_on@[k])@), code@) || eq_ignore_ascii_case(
                    trim(fail_on@[k]@),
                    rule@,
                )),
        decreases fail_on@.len() - i,
    {
        let s = fail_on[i].as_str();
        let (lo, hi) = trim_bounds(s);
        if eq_ignore_case_range(s, lo, hi, code) || eq_ignore_case_range(s, lo, hi, rule) {
            proof {
                lemma_eq_ignore_lowered(trim(fail_on@[i as int]@), code@);
                lemma_eq_ignore_lowered(trim(fail_on@[i as int]@), rule@);
            }
            return true;
        }
        i += 1;
    }
    proof {
        assert forall|k: int| 0 <= k < fail_on@.len() implies !(lowered(trim((#[trigger] fail_on@[k])@)) == lowered(code@)
            || lowered(trim(fail_on@[k]@)) == lowered(rule@)) by {
            lemma_eq_ignore_lowered(trim(fail_on@[k]@), code@);
            lemma_eq_ignore_lowered(trim(fail_on@[k]@), rule@);
        }
    }
    false
}

/// The JSON escape of a string: each backslash and double quote preceded by
/// a backslash.
pub open spec fn json_escaped(s: Seq<char>) -> Seq<char>
    decreases s.len(),
{
    if s.len() == 0 {
        Seq::empty()
    } else {
        let c = s.last();
        json_escaped(s.drop_last()) + if c == '\\' {
            seq!['\\', '\\']
        } else if c == '"' {
            seq!['\\', '"']
        } else {
            seq![c]
        }
    }
}

/// Escapes backslashes and double quotes for a JSON string.
pub fn escape_json(s: &str) -> (r: String)
    ensures
        r@ == json_escaped(s@),
{
    let n = s.unicode_len();
    let mut r = String::new();
    let mut i: usize = 0;
    while i < n
        invariant
            n == s@.len(),
            0 <= i <= n,
            r@ == json_escaped(s@.subrange(0, i as int)),
        decreases n - i,
    {
        let c = s.get_char(i);
        let ghost before = r@;
        if c == '\\' {
            r.append("\\\\");
            proof {
                reveal_strlit("\\\\");
                assert("\\\\"@ =~= seq!['\\', '\\']);
            }
        } else if c == '"' {
            r.append("\\\"");
            proof {
                reveal_strlit("\\\"");
                assert("\\\""@ =~= seq!['\\', '"']);
            }
        } else {
            let one = s.substring_char(i, i + 1);
            r.append(one);
            proof {
                assert(one@ =~= seq![c]);
            }
        }
        proof {
            let t = s@.subrange(0, i + 1);
            assert(t.drop_last() =~= s@.subrange(0, i as int));
            assert(t.last() == c);
        }
        i += 1;
    }
    proof {
        assert(s@.subrange(0, n as int) =~= s@);
    }
    r
}

} // verus!

verus! {

/// How diagnostics are printed.
#[derive(Clone, Copy, Debug, PartialEq, Eq, Structural)]
pub enum ErrorFormat {
    /// One line per diagnostic: `code rule: message`.
    Text,
    /// One JSON array of objects.
    Json,
    /// One JSON object per line.
    Ndjson,
}

/// A diagnostic as a line of text.
pub open spec fn text_line(e: ReasoningErrorView) -> Seq<char> {
    e.code + " "@ + e.rule + ": "@ + e.message
}

/// A diagnostic as a JSON object; only the message is escaped.
pub open spec fn json_object(e: ReasoningErrorView) -> Seq<char> {
    "{\"code\":\""@ + e.code + "\",\"rule\":\""@ + e.rule + "\",\"severity\":\""@ + severity_name(e.severity)
        + "\",\"message\":\""@ + json_escaped(e.message) + "\"}"@
}

/// The JSON objects of the diagnostics, separated by commas.
pub open spec fn json_objects(es: Seq<ReasoningErrorView>) -> Seq<char>
    decreases es.len(),
{
    if es.len() == 0 {
        Seq::empty()
    } else if es.len() == 1 {
        json_object(es[0])
    } else {
        json_objects(es.drop_last()) + ","@ + json_object(es.last())
    }
}

/// The diagnostics that are printed: the first `limit` of them.
pub open spec fn shown(es: Seq<ReasoningErrorView>, limit: Option<usize>) -> Seq<ReasoningErrorView> {
    match limit {
        Some(n) => if n < es.len() {
            es.take(n as int)
        } else {
            es
        },
        None => es,
    }
}

/// The printed lines for the diagnostics in the given format.
pub open spec fn printed_lines(es: Seq<ReasoningErrorView>, format: ErrorFormat) -> Seq<Seq<char>> {
    match format {
        ErrorFormat::Text => es.map_values(|e: ReasoningErrorView| text_line(e)),
        ErrorFormat::Ndjson => es.map_values(|e: ReasoningErrorView| json_object(e)),
        ErrorFormat::Json => seq!["["@ + json_objects(es) + "]"@],
    }
}

fn text_line_of(e: &ReasoningError) -> (s: String)
    ensures
        s@ == text_line(e@),
{
    let mut s = String::from_str(e.code());
    s.append(" ");
    s.append(e.rule());
    s.append(": ");
    s.append(e.message());
    s
}

fn json_object_of(e: &ReasoningError) -> (s: String)
    ensures
        s@ == json_object(e@),
{
    let mut s = String::from_str("{\"code\":\"");
    s.append(e.code());
    s.append("\",\"rule\":\"");
    s.append(e.rule());
    s.append("\",\"severity\":\"");
    s.append(e.severity().to_string().as_str());
    s.append("\",\"message\":\"");
    s.append(escape_json(e.message()).as_str());
    s.append("\"}");
    s
}

/// The lines that print the diagnostics (at most `limit` of them) in the
/// given format.
pub fn diagnostic_lines(diags: &[ReasoningError], format: ErrorFormat, limit: Option<usize>) -> (r: Vec<String>)
    ensures
        r@.map_values(|s: String| s@) == printed_lines(
            shown(diags@.map_values(|e: ReasoningError| e@), limit),
            format,
        ),
{
    let ghost all = diags@.map_values(|e: ReasoningError| e@);
    let n = match limit {
        Some(m) => if m < diags.len() {
            m
        } else {
            diags.len()
        },
        None => diags.len(),
    };
    let ghost es = shown(all, limit);
    proof {
        assert(es =~= all.take(n as int));
    }
    let mut r: Vec<String> = Vec::new();
    match format {
        ErrorFormat::Json => {
            let mut s = String::from_str("[");
            let mut i: usize = 0;
            while i < n
                invariant
                    n <= diags@.len(),
                    all == diags@.map_values(|e: ReasoningError| e@),
                    0 <= i <= n,
                    s@ == "["@ + json_objects(all.take(i as int)),
                decreases n - i,
            {
                let ghost before = s@;
                if i > 0 {
                    s.append(",");
                }
                s.append(json_object_of(&diags[i]).as_str());
                proof {
                    let t = all.take(i + 1);
                    assert(t.drop_last() =~= all.take(i as int));
                    assert(t.last() == diags@[i as int]@);
                    if i == 0 {
                        assert(t.len() == 1);
                        assert(all.take(0) =~= Seq::<ReasoningErrorView>::empty());
                        assert(t[0] == t.last());
                    }
                }
                i += 1;
            }
            s.append("]");
            r.push(s);
            proof {
                assert(r@.map_values(|s: String| s@) =~= seq!["["@ + json_objects(es) + "]"@]);
            }
        },
        _ => {
            let mut i: usize = 0;
            while i < n
                invariant
                    n <= diags@.len(),
                    all == diags@.map_values(|e: ReasoningError| e@),
                    format != ErrorFormat::Json,
                    0 <= i <= n,
                    r@.map_values(|s: String| s@) == printed_lines(all.take(i as int), format),
                decreases n - i,
            {
                let line = if format == ErrorFormat::Text {
                    text_line_of(&diags[i])
                } else {
                    json_object_of(&diags[i])
                };
                let ghost before = r@;
                r.push(line);
                proof {
                    let t = all.take(i + 1);
                    assert(t =~= all.take(i as int).push(diags@[i as int]@));
                    assert(r@.map_values(|s: String| s@) =~= before.map_values(|s: String| s@).push(line@));
                    assert(printed_lines(t, format) =~= printed_lines(all.take(i as int), format).push(line@));
                }
                i += 1;
            }
        },
    }
    r
}

/// Whether some diagnostic matches a failure rule.
pub fn should_fail(fail_on: &Vec<String>, diags: &[ReasoningError]) -> (r: bool)
    ensures
        r == exists|k: int|
            0 <= k < diags@.len() && exists|i: int|
                0 <= i < fail_on@.len() && (eq_ignore_ascii_case(trim((#[trigger] fail_on@[i])@), (#[trigger] diags@[k])@.code)
                    || eq_ignore_ascii_case(trim(fail_on@[i]@), diags@[k]@.rule)),
        r == exists|k: int|
            0 <= k < diags@.len() && exists|i: int|
                0 <= i < fail_on@.len() && (lowered(trim((#[trigger] fail_on@[i])@)) == lowered((#[trigger] diags@[k])@.code)
                    || lowered(trim(fail_on@[i]@)) == lowered(diags@[k]@.rule)),
{
    let mut k: usize = 0;
    while k < diags.len()
        invariant
            0 <= k <= diags@.len(),
            forall|j: int|
                0 <= j < k ==> !exists|i: int|
                    0 <= i < fail_on@.len() && (eq_ignore_ascii_case(trim((#[trigger] fail_on@[i])@), (#[trigger] diags@[j])@.code)
                        || eq_ignore_ascii_case(trim(fail_on@[i]@), diags@[j]@.rule)),
        decreases diags@.len() - k,
    {
        if matches_fail(fail_on, diags[k].code(), diags[k].rule()) {
            return true;
        }
        k += 1;
    }
    proof {
        assert forall|j: int, i: int|
            0 <= j < diags@.len() && 0 <= i < fail_on@.len() implies !(lowered(trim((#[trigger] fail_on@[i])@)) == lowered((#[trigger] diags@[j])@.code)
                || lowered(trim(fail_on@[i]@)) == lowered(diags@[j]@.rule)) by {
            lemma_eq_ignore_lowered(trim(fail_on@[i]@), diags@[j]@.code);
            lemma_eq_ignore_lowered(trim(fail_on@[i]@), diags@[j]@.rule);
        }
    }
    false
}

} // verus!
