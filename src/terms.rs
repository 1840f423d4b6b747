//! The Unicode-aware tokenizer that indexing and querying share: Unicode
//! words, in lower case.
use vstd::prelude::*;
use crate::chars::{alphabetic, alphanumeric, lowercase_of, numeric, str_to_lowercase};

verus! {

/// A normalized word of the text.
pub type Term = String;

/// The words of a text by the Unicode word-boundary rules, as
/// `unicode_segmentation`'s `unicode_words` yields them.
pub uninterp spec fn unicode_words_of(s: Seq<char>) -> Seq<Seq<char>>;

/// The character sequences of a list of strings.
pub open spec fn string_views(v: Seq<String>) -> Seq<Seq<char>> {
    v.map_values(|w: String| w@)
}

/// The terms of a text: its Unicode words, each in lower case.
pub open spec fn terms_of(s: Seq<char>) -> Seq<Seq<char>> {
    unicode_words_of(s).map_values(|w: Seq<char>| lowercase_of(w))
}

/// Relies on `UnicodeSegmentation::unicode_words` of `unicode_segmentation`:
/// the words depend on the text alone; each is a substring of the text that
/// holds at least one character that is alphabetic or in a number category.
#[verifier::external_body]
fn unicode_words(s: &str) -> (r: Vec<String>)
    ensures
        string_views(r@) == unicode_words_of(s@),
        forall|i: int, j: int|
            0 <= i < r@.len() && 0 <= j < r@[i]@.len() ==> s@.contains(#[trigger] r@[i]@[j]),
        forall|i: int|
            0 <= i < r@.len() ==> exists|j: int|
                0 <= j < (#[trigger] r@[i])@.len() && (alphabetic(r@[i]@[j]) || numeric(r@[i]@[j])),
{
    unicode_segmentation::UnicodeSegmentation::unicode_words(s).map(|w| w.to_string()).collect()
}

/// Hands out the terms of a text one at a time.
pub struct TermCollector {
    words: Vec<String>,
    pos: usize,
}

impl TermCollector {
    /// The terms not handed out yet.
    pub closed spec fn remaining(&self) -> Seq<Seq<char>> {
        string_views(self.words@).skip(self.pos as int)
    }

    /// The position lies within the terms.
    pub closed spec fn wf(&self) -> bool {
        self.pos <= self.words@.len()
    }

    /// The terms of `content`. None is empty, and a text without a letter or
    /// digit has none.
    pub fn new(content: &str) -> (r: Self)
        ensures
            r.wf(),
            r.remaining() == terms_of(content@),
            forall|i: int| 0 <= i < r.remaining().len() ==> (#[trigger] r.remaining()[i]).len() > 0,
            (forall|j: int| 0 <= j < content@.len() ==> !alphanumeric(#[trigger] content@[j]))
                ==> r.remaining().len() == 0,
    {
        let words = unicode_words(content);
        let ghost ws = string_views(words@);
        let mut terms: Vec<Term> = Vec::new();
        let mut k: usize = 0;
        while k < words.len()
            invariant
                k <= words@.len(),
                ws == string_views(words@),
                string_views(terms@) == ws.subrange(0, k as int).map_values(
                    |w: Seq<char>| lowercase_of(w),
                ),
                forall|i: int| 0 <= i < ws.len() ==> (#[trigger] ws[i]).len() > 0,
                forall|i: int| 0 <= i < terms@.len() ==> (#[trigger] terms@[i])@.len() > 0,
            decreases words@.len() - k,
        {
            let t = str_to_lowercase(words[k].as_str());
            proof {
                assert(ws[k as int] == words@[k as int]@);
            }
            let ghost before = string_views(terms@);
            terms.push(t);
            proof {
                let j = k as int;
                assert(ws.subrange(0, j + 1) =~= ws.subrange(0, j).push(ws[j]));
                assert(string_views(terms@) =~= before.push(lowercase_of(ws[j])));
                assert(string_views(terms@) =~= ws.subrange(0, j + 1).map_values(
                    |w: Seq<char>| lowercase_of(w),
                ));
            }
            k = k + 1;
        }
        proof {
            assert(ws.subrange(0, ws.len() as int) =~= ws);
            if words@.len() > 0 && forall|j: int|
                0 <= j < content@.len() ==> !alphanumeric(#[trigger] content@[j]) {
                let w = words@[0]@;
                let j = choose|j: int| 0 <= j < w.len() && (alphabetic(w[j]) || numeric(w[j]));
                assert(content@.contains(words@[0]@[j]));
            }
        }
        let r = TermCollector { words: terms, pos: 0 };
        assert(string_views(r.words@).skip(0) =~= string_views(r.words@));
        r
    }

    /// The next term, or `None` when all have been handed out.
    pub fn next_term(&mut self) -> (r: Option<Term>)
        requires
            old(self).wf(),
        ensures
            final(self).wf(),
            old(self).remaining().len() == 0 ==> r is None && final(self).remaining().len() == 0,
            old(self).remaining().len() > 0 ==> (r matches Some(t) && t@ == old(
                self,
            ).remaining()[0]) && final(self).remaining() == old(self).remaining().drop_first(),
    {
        if self.pos < self.words.len() {
            let t = self.words[self.pos].clone();
            self.pos = self.pos + 1;
            assert(final(self).remaining() =~= old(self).remaining().drop_first());
            Some(t)
        } else {
            None
        }
    }

    /// All the terms not handed out yet, in order.
    pub fn collect_terms(self) -> (r: Vec<Term>)
        requires
            self.wf(),
        ensures
            string_views(r@) == self.remaining(),
    {
        let mut c = self;
        let ghost all = c.remaining();
        let mut out: Vec<Term> = Vec::new();
        while c.pos < c.words.len()
            invariant
                c.wf(),
                all == string_views(out@) + c.remaining(),
            decreases c.words@.len() - c.pos,
        {
            let t = c.next_term();
            match t {
                Some(t) => {
                    out.push(t);
                },
                None => {},
            }
            assert(string_views(out@) + c.remaining() =~= all);
        }
        assert(c.remaining() =~= Seq::<Seq<char>>::empty());
        assert(string_views(out@) + c.remaining() =~= string_views(out@));
        out
    }
}

} // verus!
