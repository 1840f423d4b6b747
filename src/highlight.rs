//! The highlighter's logic: one case-insensitive, whole-word pattern over
//! the query terms, and the lines of a text on which it matches, with the
//! spans it matches there.
use vstd::prelude::*;
use vstd::string::StringExecFns;
use crate::terms::{string_views, Term};

verus! {

/// The characters that `regex::escape` puts a backslash before.
pub open spec fn is_meta(c: char) -> bool {
    c == '\\' || c == '.' || c == '+' || c == '*' || c == '?' || c == '(' || c == ')' || c == '|'
        || c == '[' || c == ']' || c == '{' || c == '}' || c == '^' || c == '$' || c == '#'
        || c == '&' || c == '-' || c == '~'
}

/// `s` with a backslash before each metacharacter.
pub open spec fn escaped(s: Seq<char>) -> Seq<char>
    decreases s.len(),
{
    if s.len() == 0 {
        Seq::empty()
    } else {
        escaped(s.drop_last()) + if is_meta(s.last()) {
            seq!['\\', s.last()]
        } else {
            seq![s.last()]
        }
    }
}

/// Relies on `regex::escape`: a backslash before each metacharacter, every
/// character kept in order.
#[verifier::external_body]
fn escape(s: &str) -> (r: String)
    ensures
        r@ == escaped(s@),
{
    regex::escape(s)
}

/// Whether `p` compiles as a regular expression, as `regex::Regex::new`
/// decides with its default limits.
pub uninterp spec fn compiles(p: Seq<char>) -> bool;

/// The byte spans of the successive non-overlapping matches of pattern `p`
/// in `line`, left to right, as `regex::Regex::find_iter` yields them.
pub uninterp spec fn match_spans(p: Seq<char>, line: Seq<char>) -> Seq<(usize, usize)>;

/// Relies on `regex::Regex::new`, and on `Regex::find_iter` with
/// `Match::start` and `Match::end`: whether the pattern compiles, and the
/// spans of its matches in each line, depend on the pattern and the line
/// alone; the matches do not overlap and come left to right.
#[verifier::external_body]
fn find_spans_in_lines(pattern: &str, lines: &Vec<String>) -> (r: Option<Vec<Vec<(usize, usize)>>>)
    ensures
        r is Some <==> compiles(pattern@),
        r matches Some(v) ==> v@.len() == lines@.len() && forall|i: int|
            0 <= i < v@.len() ==> #[trigger] v@[i]@ == match_spans(pattern@, lines@[i]@)
                && spans_ordered(v@[i]@),
{
    let re = regex::Regex::new(pattern).ok()?;
    Some(lines.iter().map(|l| re.find_iter(l).map(|m| (m.start(), m.end())).collect()).collect())
}

/// The lines of `s`, as `str::lines` splits them.
pub uninterp spec fn lines_of(s: Seq<char>) -> Seq<Seq<char>>;

/// Relies on `str::lines`: lines end at `\n` or `\r\n`, which are not kept,
/// and the split depends on the text alone.
#[verifier::external_body]
fn split_lines(s: &str) -> (r: Vec<String>)
    ensures
        string_views(r@) == lines_of(s@),
{
    s.lines().map(|l| l.to_string()).collect()
}

/// Spans that start no later than they end, each ending no later than the
/// next starts.
pub open spec fn spans_ordered(s: Seq<(usize, usize)>) -> bool {
    &&& forall|k: int| 0 <= k < s.len() ==> (#[trigger] s[k]).0 <= s[k].1
    &&& forall|k: int| 0 <= k < s.len() - 1 ==> (#[trigger] s[k]).1 <= s[k + 1].0
}

/// The query terms, escaped and joined by `|`.
pub open spec fn alternation(q: Seq<Seq<char>>) -> Seq<char>
    decreases q.len(),
{
    if q.len() == 0 {
        Seq::empty()
    } else if q.len() == 1 {
        escaped(q[0])
    } else {
        alternation(q.drop_last()) + "|"@ + escaped(q.last())
    }
}

/// The pattern that matches any of the terms `q` as a whole word, in any
/// case.
pub open spec fn pattern_of(q: Seq<Seq<char>>) -> Seq<char> {
    "(?i)\\b("@ + alternation(q) + ")\\b"@
}

/// The pattern that matches any of `terms` as a whole word, in any case,
/// each term taken literally.
pub fn highlight_pattern(terms: &Vec<Term>) -> (r: String)
    ensures
        r@ == pattern_of(string_views(terms@)),
{
    let ghost q = string_views(terms@);
    let mut joined = String::new();
    let mut k: usize = 0;
    while k < terms.len()
        invariant
            k <= terms@.len(),
            q == string_views(terms@),
            joined@ == alternation(q.subrange(0, k as int)),
        decreases terms@.len() - k,
    {
        proof {
            assert(q.subrange(0, k as int + 1).drop_last() =~= q.subrange(0, k as int));
            assert(q.subrange(0, k as int + 1).last() == terms@[k as int]@);
        }
        if k > 0 {
            joined.append("|");
        }
        let e = escape(terms[k].as_str());
        joined.append(e.as_str());
        proof {
            if k == 0 {
                assert(q.subrange(0, 0) =~= Seq::<Seq<char>>::empty());
                assert(joined@ =~= escaped(q[0]));
            } else {
                assert(joined@ =~= alternation(q.subrange(0, k as int + 1)));
            }
        }
        k = k + 1;
    }
    proof {
        assert(q.subrange(0, terms@.len() as int) =~= q);
    }
    let mut pattern = String::from_str("(?i)\\b(");
    pattern.append(joined.as_str());
    pattern.append(")\\b");
    pattern
}

/// One line on which the pattern matched: its number, counting from 1, its
/// text, and the byte spans of the matches.
pub struct LineMatch {
    pub number: usize,
    pub text: String,
    pub spans: Vec<(usize, usize)>,
}

/// A matched line as plain values.
pub open spec fn line_match_view(m: LineMatch) -> (nat, Seq<char>, Seq<(usize, usize)>) {
    (m.number as nat, m.text@, m.spans@)
}

/// The lines of `lines` whose spans in `spans` are not empty, with their
/// numbers counting from 1.
pub open spec fn matched_lines(lines: Seq<Seq<char>>, spans: Seq<Seq<(usize, usize)>>) -> Seq<
    (nat, Seq<char>, Seq<(usize, usize)>),
>
    decreases lines.len(),
{
    if lines.len() == 0 || spans.len() != lines.len() {
        Seq::empty()
    } else {
        let before = matched_lines(lines.drop_last(), spans.drop_last());
        if spans.last().len() > 0 {
            before.push((lines.len(), lines.last(), spans.last()))
        } else {
            before
        }
    }
}

/// The lines that have at least one match, each with its number and spans.
pub fn matching_lines(lines: &Vec<String>, spans: Vec<Vec<(usize, usize)>>) -> (r: Vec<LineMatch>)
    requires
        spans@.len() == lines@.len(),
    ensures
        r@.map_values(|m: LineMatch| line_match_view(m)) == matched_lines(
            string_views(lines@),
            spans@.map_values(|s: Vec<(usize, usize)>| s@),
        ),
{
    let ghost ls = string_views(lines@);
    let ghost ss = spans@.map_values(|s: Vec<(usize, usize)>| s@);
    let mut out: Vec<LineMatch> = Vec::new();
    let n = lines.len();
    let mut k: usize = 0;
    for s in it: spans.into_iter()
        invariant
            n == lines@.len(),
            it.seq() == spans@,
            k == it.index(),
            k <= spans@.len(),
            spans@.len() == lines@.len(),
            ls == string_views(lines@),
            ss == spans@.map_values(|s: Vec<(usize, usize)>| s@),
            out@.map_values(|m: LineMatch| line_match_view(m)) == matched_lines(
                ls.subrange(0, k as int),
                ss.subrange(0, k as int),
            ),
    {
        proof {
            assert(ls.subrange(0, k as int + 1).drop_last() =~= ls.subrange(0, k as int));
            assert(ss.subrange(0, k as int + 1).drop_last() =~= ss.subrange(0, k as int));
            assert(ss.subrange(0, k as int + 1).last() == s@);
            assert(ls.subrange(0, k as int + 1).last() == lines@[k as int]@);
        }
        let ghost before = out@.map_values(|m: LineMatch| line_match_view(m));
        assert(k < spans@.len());
        if s.len() > 0 {
            out.push(LineMatch { number: k + 1, text: lines[k].clone(), spans: s });
            proof {
                assert(out@.map_values(|m: LineMatch| line_match_view(m)) =~= before.push(
                    line_match_view(out@[out@.len() - 1]),
                ));
            }
        }
        k = k + 1;
    }
    proof {
        assert(ls.subrange(0, lines@.len() as int) =~= ls);
        assert(ss.subrange(0, lines@.len() as int) =~= ss);
    }
    out
}

/// Why lines could not be highlighted.
#[derive(Clone, Copy, Debug, PartialEq, Eq, Structural)]
pub enum HighlightError {
    /// The pattern built from the query terms did not compile.
    InvalidPattern,
}

/// The lines of `content` on which any of `terms` occurs as a whole word, in
/// any case, in order, each with its number (from 1) and the spans of every
/// match on it. Fails exactly when the pattern does not compile.
pub fn highlight_lines(content: &str, terms: &Vec<Term>) -> (r: Result<Vec<LineMatch>, HighlightError>)
    ensures
        r is Ok <==> compiles(pattern_of(string_views(terms@))),
        r matches Ok(v) ==> v@.map_values(|m: LineMatch| line_match_view(m)) == matched_lines(
            lines_of(content@),
            lines_of(content@).map_values(
                |l: Seq<char>| match_spans(pattern_of(string_views(terms@)), l),
            ),
        ),
{
    let pattern = highlight_pattern(terms);
    let lines = split_lines(content);
    match find_spans_in_lines(pattern.as_str(), &lines) {
        None => Err(HighlightError::InvalidPattern),
        Some(spans) => {
            proof {
                let p = pattern_of(string_views(terms@));
                assert(spans@.map_values(|s: Vec<(usize, usize)>| s@) =~= lines_of(
                    content@,
                ).map_values(|l: Seq<char>| match_spans(p, l))) by {
                    assert forall|i: int| 0 <= i < spans@.len() implies lines@[i]@ == lines_of(
                        content@,
                    )[i] by {
                        assert(string_views(lines@)[i] == lines@[i]@);
                    }
                }
                assert(string_views(lines@) == lines_of(content@));
            }
            Ok(matching_lines(&lines, spans))
        },
    }
}

} // verus!
