//! A character-level tokenizer: runs of digits and runs of letters and
//! digits that start with a letter, with an English stemming variant.
use vstd::prelude::*;
use crate::chars::{
    alphabetic, alphanumeric, lowercase_of, str_to_lowercase, is_alphabetic,
    is_alphanumeric, is_numeric, is_whitespace, numeric, string_from_chars, whitespace,
};

verus! {

/// What the English Snowball stemmer of `rust_stemmers` makes of a word.
pub uninterp spec fn english_stem(w: Seq<char>) -> Seq<char>;

/// Relies on `rust_stemmers::Stemmer::create(Algorithm::English)` and
/// `Stemmer::stem`: the stem depends on the word alone.
#[verifier::external_body]
fn stem_english(w: &str) -> (r: String)
    ensures
        r@ == english_stem(w@),
{
    rust_stemmers::Stemmer::create(rust_stemmers::Algorithm::English).stem(w).into_owned()
}

/// Characters that separate terms: white space and anything that is
/// neither a letter nor a digit.
pub open spec fn separator(c: char) -> bool {
    whitespace(c) || !alphanumeric(c)
}

/// The first position at or after `i` that holds no separator.
pub open spec fn skip_separators(s: Seq<char>, i: int) -> int
    decreases s.len() - i,
{
    if 0 <= i < s.len() && separator(s[i]) {
        skip_separators(s, i + 1)
    } else {
        i
    }
}

/// The end of the run that starts at `i`: of digits when `digits`, else of
/// letters and digits.
pub open spec fn run_end(s: Seq<char>, i: int, digits: bool) -> int
    decreases s.len() - i,
{
    if 0 <= i < s.len() && (if digits { numeric(s[i]) } else { alphanumeric(s[i]) }) {
        run_end(s, i + 1, digits)
    } else {
        i
    }
}

/// A run ends at or after where it starts, and inside the text when it starts there.
proof fn lemma_run_end_bounds(s: Seq<char>, i: int, digits: bool)
    requires
        0 <= i <= s.len(),
    ensures
        i <= run_end(s, i, digits) <= s.len(),
    decreases s.len() - i,
{
    if 0 <= i < s.len() && (if digits { numeric(s[i]) } else { alphanumeric(s[i]) }) {
        lemma_run_end_bounds(s, i + 1, digits);
    }
}

/// Whether `c` continues a run of digits (`digits`) or of letters and digits.
fn in_run(c: char, digits: bool) -> (r: bool)
    ensures
        r == if digits { numeric(c) } else { alphanumeric(c) },
{
    if digits {
        is_numeric(c)
    } else {
        is_alphanumeric(c)
    }
}

/// One step of the tokenizer on `s` from position `i`: the word found, if
/// any, and the position after it.
pub open spec fn lex_step(s: Seq<char>, i: int) -> (Option<Seq<char>>, int) {
    let start = skip_separators(s, i);
    if start >= s.len() {
        (None, start)
    } else if numeric(s[start]) {
        let end = run_end(s, start, true);
        (Some(s.subrange(start, end)), end)
    } else if alphabetic(s[start]) {
        let end = run_end(s, start, false);
        (Some(lowercase_of(s.subrange(start, end))), end)
    } else {
        (None, start)
    }
}

/// A cursor over a slice of characters that hands out one term at a time.
pub struct Lexer<'a> {
    content: &'a [char],
    pos: usize,
}

impl<'a> Lexer<'a> {
    /// The characters the lexer reads.
    pub closed spec fn text(&self) -> Seq<char> {
        self.content@
    }

    /// How far the lexer has read.
    pub closed spec fn position(&self) -> int {
        self.pos as int
    }

    /// The position lies within the text.
    pub closed spec fn wf(&self) -> bool {
        self.pos <= self.content@.len()
    }

    pub fn new(content: &'a [char]) -> (r: Self)
        ensures
            r.wf(),
            r.text() == content@,
            r.position() == 0,
    {
        Lexer { content, pos: 0 }
    }

    /// Skips separators.
    fn chop_left(&mut self)
        requires
            old(self).wf(),
        ensures
            final(self).wf(),
            final(self).text() == old(self).text(),
            final(self).position() == skip_separators(old(self).text(), old(self).position()),
    {
        let len = self.content.len();
        while self.pos < len && (is_whitespace(self.content[self.pos]) || !is_alphanumeric(
            self.content[self.pos],
        ))
            invariant
                self.wf(),
                len == self.content@.len(),
                self.text() == old(self).text(),
                skip_separators(self.text(), self.position()) == skip_separators(
                    old(self).text(),
                    old(self).position(),
                ),
            decreases len - self.pos,
        {
            self.pos = self.pos + 1;
        }
    }

    /// Moves past the run that starts at the current position.
    fn chop_while(&mut self, digits: bool) -> (r: usize)
        requires
            old(self).wf(),
        ensures
            final(self).wf(),
            final(self).text() == old(self).text(),
            r == old(self).position(),
            r <= final(self).position(),
            final(self).position() == run_end(old(self).text(), old(self).position(), digits),
    {
        let start = self.pos;
        let len = self.content.len();
        proof {
            lemma_run_end_bounds(self.text(), self.position(), digits);
        }
        while self.pos < len && in_run(self.content[self.pos], digits)
            invariant
                self.wf(),
                start <= self.pos,
                len == self.content@.len(),
                self.text() == old(self).text(),
                start == old(self).position(),
                run_end(self.text(), self.position(), digits) == run_end(
                    old(self).text(),
                    old(self).position(),
                    digits,
                ),
            decreases len - self.pos,
        {
            self.pos = self.pos + 1;
        }
        start
    }

    /// The next term, stemmed with the English stemmer.
    pub fn next_word_stemmed(&mut self) -> (r: Option<String>)
        requires
            old(self).wf(),
        ensures
            final(self).wf(),
            final(self).text() == old(self).text(),
            ({
                let (w, end) = lex_step(old(self).text(), old(self).position());
                &&& final(self).position() == end
                &&& match w {
                    None => r is None,
                    Some(w) => r matches Some(s) && s@ == english_stem(w),
                }
            }),
    {
        match self.next_word() {
            None => None,
            Some(w) => Some(stem_english(w.as_str())),
        }
    }

    /// The next term: a run of digits as it stands, or a run of letters and
    /// digits that starts with a letter, in lower case.
    pub fn next_word(&mut self) -> (r: Option<String>)
        requires
            old(self).wf(),
        ensures
            final(self).wf(),
            final(self).text() == old(self).text(),
            ({
                let (w, end) = lex_step(old(self).text(), old(self).position());
                &&& final(self).position() == end
                &&& match w {
                    None => r is None,
                    Some(w) => r matches Some(s) && s@ == w,
                }
            }),
    {
        self.chop_left();
        if self.pos >= self.content.len() {
            return None;
        }
        if is_numeric(self.content[self.pos]) {
            let start = self.chop_while(true);
            let word = string_from_chars(&self.content[start..self.pos]);
            return Some(word);
        }
        if is_alphabetic(self.content[self.pos]) {
            let start = self.chop_while(false);
            let word = string_from_chars(&self.content[start..self.pos]);
            return Some(str_to_lowercase(word.as_str()));
        }
        None
    }
}

} // verus!
