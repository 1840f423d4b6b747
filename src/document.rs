//! Documents, their term-frequency tables, and the inverted index that
//! merges them.
use vstd::prelude::*;
use vstd::hash_map::StringHashMap;
use crate::merge::indexed_from;
use crate::terms::{string_views, terms_of, Term, TermCollector};

verus! {

/// How a document's text is loaded, kept so that it can be loaded again
/// the same way.
#[derive(Clone, Copy, Debug, PartialEq, Eq, Structural)]
pub enum Extractor {
    /// The file read as UTF-8 text.
    PlainText,
    /// A word-processor archive whose XML parts hold the text.
    Docx,
    /// A format whose extraction yields nothing.
    Pdf,
}

/// How many times `t` occurs in `s`.
pub open spec fn occurrences(s: Seq<Seq<char>>, t: Seq<char>) -> nat
    decreases s.len(),
{
    if s.len() == 0 {
        0
    } else {
        occurrences(s.drop_last(), t) + if s.last() == t {
            1nat
        } else {
            0nat
        }
    }
}

/// Each term of `s` with the number of its occurrences.
pub open spec fn term_counts(s: Seq<Seq<char>>) -> Map<Seq<char>, nat> {
    Map::new(|t: Seq<char>| s.contains(t), |t: Seq<char>| occurrences(s, t))
}

proof fn lemma_occurrences_step(s: Seq<Seq<char>>, k: int, t: Seq<char>)
    requires
        0 <= k < s.len(),
    ensures
        occurrences(s.subrange(0, k + 1), t) == occurrences(s.subrange(0, k), t) + if s[k] == t {
            1nat
        } else {
            0nat
        },
        s.subrange(0, k + 1).contains(t) <==> (s.subrange(0, k).contains(t) || s[k] == t),
{
    assert(s.subrange(0, k + 1).drop_last() =~= s.subrange(0, k));
    if s.subrange(0, k + 1).contains(t) && s[k] != t {
        let j = choose|j: int| 0 <= j < k + 1 && #[trigger] s.subrange(0, k + 1)[j] == t;
        assert(s.subrange(0, k)[j] == t);
    }
    if s.subrange(0, k).contains(t) {
        let j = choose|j: int| 0 <= j < k && #[trigger] s.subrange(0, k)[j] == t;
        assert(s.subrange(0, k + 1)[j] == t);
    }
    if s[k] == t {
        assert(s.subrange(0, k + 1)[k] == t);
    }
}

/// The prefix of `s` of length `k + 1` holds what the prefix of length `k`
/// holds, and `s[k]`.
proof fn lemma_prefix_contains(s: Seq<Seq<char>>, k: int)
    requires
        0 <= k < s.len(),
    ensures
        forall|t: Seq<char>|
            #[trigger] s.subrange(0, k + 1).contains(t) <==> (s.subrange(0, k).contains(t) || s[k]
                == t),
{
    assert forall|t: Seq<char>|
        #[trigger] s.subrange(0, k + 1).contains(t) <==> (s.subrange(0, k).contains(t) || s[k]
            == t) by {
        lemma_occurrences_step(s, k, t);
    }
}

proof fn lemma_occurrences_bound(s: Seq<Seq<char>>, t: Seq<char>)
    ensures
        occurrences(s, t) <= s.len(),
        s.contains(t) <==> occurrences(s, t) > 0,
    decreases s.len(),
{
    if s.len() > 0 {
        lemma_occurrences_bound(s.drop_last(), t);
        if s.contains(t) && s.last() != t {
            let j = choose|j: int| 0 <= j < s.len() && #[trigger] s[j] == t;
            assert(s.drop_last()[j] == t);
        }
        if s.drop_last().contains(t) {
            let j = choose|j: int| 0 <= j < s.len() - 1 && #[trigger] s.drop_last()[j] == t;
            assert(s[j] == t);
        }
    }
}

/// The occurrence count of each distinct term of one document.
pub struct TermTable {
    counts: StringHashMap<usize>,
}

impl TermTable {
    /// Each term that occurs, with its count.
    pub closed spec fn view(&self) -> Map<Seq<char>, nat> {
        Map::new(
            |t: Seq<char>| self.counts@.contains_key(t),
            |t: Seq<char>| self.counts@[t] as nat,
        )
    }

    /// Counts the occurrences of each term of `terms`.
    pub fn from_terms(terms: &Vec<Term>) -> (r: Self)
        ensures
            r@ == term_counts(string_views(terms@)),
    {
        let ghost s = string_views(terms@);
        let mut counts: StringHashMap<usize> = StringHashMap::new();
        let mut k: usize = 0;
        while k < terms.len()
            invariant
                k <= terms@.len(),
                s == string_views(terms@),
                forall|t: Seq<char>|
                    #![trigger counts@.contains_key(t)]
                    counts@.contains_key(t) <==> s.subrange(0, k as int).contains(t),
                forall|t: Seq<char>|
                    #![trigger counts@[t]]
                    counts@.contains_key(t) ==> counts@[t] == occurrences(
                        s.subrange(0, k as int),
                        t,
                    ),
            decreases terms@.len() - k,
        {
            let term = &terms[k];
            proof {
                assert(term@ == s[k as int]);
                lemma_occurrences_bound(s.subrange(0, k as int), term@);
                lemma_prefix_contains(s, k as int);
                assert forall|t: Seq<char>| #[trigger]
                    occurrences(s.subrange(0, k as int + 1), t) == occurrences(
                        s.subrange(0, k as int),
                        t,
                    ) + if s[k as int] == t {
                        1nat
                    } else {
                        0nat
                    } by {
                    lemma_occurrences_step(s, k as int, t);
                }
            }
            let n: usize = match counts.get(term.as_str()) {
                Some(c) => *c,
                None => 0,
            };
            counts.insert(term.clone(), n + 1);
            k = k + 1;
        }
        assert(s.subrange(0, terms@.len() as int) =~= s);
        let r = TermTable { counts };
        assert(r@ =~= term_counts(s));
        r
    }

    /// How many times `term` occurs; `0` when it does not.
    pub fn count(&self, term: &str) -> (r: usize)
        ensures
            r == if self@.contains_key(term@) {
                self@[term@]
            } else {
                0
            },
    {
        match self.counts.get(term) {
            Some(c) => *c,
            None => 0,
        }
    }
}

/// What a document is, apart from its path.
pub struct DocView {
    pub extractor: Extractor,
    pub total_terms: nat,
    pub term_frequency: Map<Seq<char>, nat>,
}

/// Every term a document holds occurs at least once and at most as often as
/// the document has term occurrences.
pub open spec fn doc_counts_fit(d: DocView) -> bool {
    forall|t: Seq<char>|
        #[trigger] d.term_frequency.contains_key(t) ==> 1 <= d.term_frequency[t] <= d.total_terms
}

/// One file that was indexed: where it lies, how it was read, and how often
/// each of its terms occurs.
pub struct Document {
    extractor: Extractor,
    path: String,
    total_terms: usize,
    term_freq: TermTable,
}

impl Document {
    /// The path that identifies the document.
    pub closed spec fn path(&self) -> Seq<char> {
        self.path@
    }

    /// The document apart from its path.
    pub closed spec fn view(&self) -> DocView {
        DocView {
            extractor: self.extractor,
            total_terms: self.total_terms as nat,
            term_frequency: self.term_freq@,
        }
    }

    pub fn new(extractor: Extractor, path: String, total_terms: usize, term_freq: TermTable) -> (r:
        Self)
        ensures
            r.path() == path@,
            r@ == (DocView {
                extractor,
                total_terms: total_terms as nat,
                term_frequency: term_freq@,
            }),
    {
        Document { extractor, path, total_terms, term_freq }
    }

    /// How often `term` occurs in the document; `0` when it does not.
    pub fn term_frequency(&self, term: &str) -> (r: usize)
        ensures
            r == if self@.term_frequency.contains_key(term@) {
                self@.term_frequency[term@]
            } else {
                0
            },
    {
        self.term_freq.count(term)
    }

    /// The number of term occurrences in the document.
    pub fn total_term_count(&self) -> (r: usize)
        ensures
            r == self@.total_terms,
    {
        self.total_terms
    }

    pub fn file_path(&self) -> (r: &str)
        ensures
            r@ == self.path(),
    {
        self.path.as_str()
    }

    /// The routine the document's text was loaded with.
    pub fn extractor(&self) -> (r: Extractor)
        ensures
            r == self@.extractor,
    {
        self.extractor
    }
}

/// Documents are the same document exactly when their paths are equal.
impl PartialEq for Document {
    fn eq(&self, other: &Document) -> (r: bool)
        ensures
            r == (self.path() == other.path()),
    {
        self.path == other.path
    }
}

impl vstd::std_specs::cmp::PartialEqSpecImpl for Document {
    open spec fn obeys_eq_spec() -> bool {
        true
    }

    open spec fn eq_spec(&self, other: &Document) -> bool {
        self.path() == other.path()
    }
}

/// The text of one file, with where it lies and how it was read.
pub struct ParsedResult {
    content: String,
    path: String,
    parser: Extractor,
}

impl ParsedResult {
    pub closed spec fn content(&self) -> Seq<char> {
        self.content@
    }

    pub closed spec fn path(&self) -> Seq<char> {
        self.path@
    }

    pub closed spec fn parser(&self) -> Extractor {
        self.parser
    }

    pub fn new(content: String, path: String, parser: Extractor) -> (r: Self)
        ensures
            r.content() == content@,
            r.path() == path@,
            r.parser() == parser,
    {
        ParsedResult { content, path, parser }
    }
}

/// The index as a mathematical value.
pub struct IndexView {
    /// Each indexed path with its document.
    pub documents: Map<Seq<char>, DocView>,
    /// Each term with the paths of the documents that hold it.
    pub postings: Map<Seq<char>, Set<Seq<char>>>,
    /// Each term with the number of documents that hold it.
    pub document_frequency: Map<Seq<char>, nat>,
    /// How many documents the index holds.
    pub document_count: nat,
}

/// The index `m` once the document at `path`, read by `extractor` and
/// holding `terms`, has been merged into it. A path that is already indexed
/// leaves the index as it is.
pub open spec fn merged(
    m: IndexView,
    path: Seq<char>,
    extractor: Extractor,
    terms: Seq<Seq<char>>,
) -> IndexView {
    if m.documents.contains_key(path) {
        m
    } else {
        IndexView {
            documents: m.documents.insert(
                path,
                DocView { extractor, total_terms: terms.len(), term_frequency: term_counts(terms) },
            ),
            postings: Map::new(
                |t: Seq<char>| m.postings.contains_key(t) || terms.contains(t),
                |t: Seq<char>|
                    (if m.postings.contains_key(t) {
                        m.postings[t]
                    } else {
                        Set::empty()
                    }).union(
                        if terms.contains(t) {
                            set![path]
                        } else {
                            Set::empty()
                        },
                    ),
            ),
            document_frequency: Map::new(
                |t: Seq<char>| m.document_frequency.contains_key(t) || terms.contains(t),
                |t: Seq<char>|
                    (if m.document_frequency.contains_key(t) {
                        m.document_frequency[t]
                    } else {
                        0
                    }) + if terms.contains(t) {
                        1nat
                    } else {
                        0nat
                    },
            ),
            document_count: m.document_count + 1,
        }
    }
}

/// The paths of a list of documents.
pub open spec fn doc_paths(v: Seq<&Document>) -> Seq<Seq<char>> {
    v.map_values(|d: &Document| d.path())
}

/// Whether the document holds at least one of the terms `q`.
pub open spec fn holds_any(d: DocView, q: Seq<Seq<char>>) -> bool {
    exists|t: Seq<char>| #[trigger] q.contains(t) && d.term_frequency.contains_key(t)
}

/// The number of documents that hold `t`, or `1` when none does.
pub open spec fn frequency_or_one(m: IndexView, t: Seq<char>) -> nat {
    if m.document_frequency.contains_key(t) {
        m.document_frequency[t]
    } else {
        1
    }
}

/// The index of no document.
pub open spec fn empty_index() -> IndexView {
    IndexView {
        documents: Map::empty(),
        postings: Map::empty(),
        document_frequency: Map::empty(),
        document_count: 0,
    }
}

/// An inverted index: each term with the documents that hold it, each
/// document once, found by its path.
pub struct DocumentIndex {
    work_dir: String,
    /// The documents; a document's position here is its handle.
    docs: Vec<Document>,
    /// The handle of each path.
    by_path: StringHashMap<usize>,
    /// The number of each term.
    term_ids: StringHashMap<usize>,
    /// For each term number, the handles of the documents that hold the
    /// term, in increasing order.
    postings: Vec<Vec<usize>>,
    /// The term of each term number.
    vocabulary: Ghost<Seq<Seq<char>>>,
}

impl DocumentIndex {
    /// Each path has the handle of its document, every document's counts
    /// fit its length, term numbers and terms correspond one to one, and a
    /// posting list holds, in increasing order, exactly the handles of the
    /// documents whose tables hold its term.
    pub closed spec fn wf(&self) -> bool {
        let n = self.docs@.len();
        &&& forall|h: int|
            0 <= h < n ==> #[trigger] self.by_path@.contains_key(self.docs@[h].path())
                && self.by_path@[self.docs@[h].path()] == h
        &&& forall|p: Seq<char>|
            #[trigger] self.by_path@.contains_key(p) ==> self.by_path@[p] < n
                && self.docs@[self.by_path@[p] as int].path() == p
        &&& forall|h: int| 0 <= h < n ==> doc_counts_fit(#[trigger] self.docs@[h]@)
        &&& forall|h: int, t: Seq<char>|
            0 <= h < n && #[trigger] self.docs@[h]@.term_frequency.contains_key(t)
                ==> self.term_ids@.contains_key(t)
        &&& self.vocabulary@.len() == self.postings@.len()
        &&& forall|t: Seq<char>|
            #[trigger] self.term_ids@.contains_key(t) ==> self.term_ids@[t] < self.postings@.len()
                && self.vocabulary@[self.term_ids@[t] as int] == t
        &&& forall|id: int|
            0 <= id < self.postings@.len() ==> #[trigger] self.term_ids@.contains_key(
                self.vocabulary@[id],
            ) && self.term_ids@[self.vocabulary@[id]] == id
        &&& forall|id: int| 0 <= id < self.postings@.len()
            ==> #[trigger] self.postings@[id]@.len() > 0
        &&& forall|id: int, j: int|
            0 <= id < self.postings@.len() && 0 <= j < self.postings@[id]@.len() ==> #[trigger]
            self.postings@[id]@[j] < n
        &&& forall|id: int, i: int, j: int|
            0 <= id < self.postings@.len() && 0 <= i < j < self.postings@[id]@.len() ==> #[trigger]
            self.postings@[id]@[i] < #[trigger] self.postings@[id]@[j]
        &&& forall|id: int, h: int|
            0 <= id < self.postings@.len() && 0 <= h < n
                ==> (#[trigger] self.postings@[id]@.contains(
                h as usize,
            ) <==> #[trigger] self.docs@[h]@.term_frequency.contains_key(self.vocabulary@[id]))
    }

    /// The paths of the documents in the posting list with number `id`.
    pub closed spec fn posting_paths(&self, id: int) -> Seq<Seq<char>> {
        self.postings@[id]@.map_values(|h: usize| self.docs@[h as int].path())
    }

    /// The index as paths, terms and counts.
    pub closed spec fn view(&self) -> IndexView {
        IndexView {
            documents: Map::new(
                |p: Seq<char>| self.by_path@.contains_key(p),
                |p: Seq<char>| self.docs@[self.by_path@[p] as int]@,
            ),
            postings: Map::new(
                |t: Seq<char>| self.term_ids@.contains_key(t),
                |t: Seq<char>| self.posting_paths(self.term_ids@[t] as int).to_set(),
            ),
            document_frequency: Map::new(
                |t: Seq<char>| self.term_ids@.contains_key(t),
                |t: Seq<char>| self.postings@[self.term_ids@[t] as int]@.len(),
            ),
            document_count: self.docs@.len(),
        }
    }

    /// The directory that indexed paths are taken relative to.
    pub closed spec fn work_dir_view(&self) -> Seq<char> {
        self.work_dir@
    }

    /// An empty index for files under `work_dir`.
    pub fn new(work_dir: String) -> (r: Self)
        ensures
            r.wf(),
            r@ == empty_index(),
            r.work_dir_view() == work_dir@,
    {
        let r = DocumentIndex {
            work_dir,
            docs: Vec::new(),
            by_path: StringHashMap::new(),
            term_ids: StringHashMap::new(),
            postings: Vec::new(),
            vocabulary: Ghost(Seq::empty()),
        };
        assert(r@.documents =~= Map::empty());
        assert(r@.postings =~= Map::empty());
        assert(r@.document_frequency =~= Map::empty());
        r
    }

    pub fn work_dir(&self) -> (r: &str)
        ensures
            r@ == self.work_dir_view(),
    {
        self.work_dir.as_str()
    }

    /// Merges one extracted file: its terms are counted, and the document is
    /// added to the posting list of each distinct term it holds, once. A path
    /// that is already indexed changes nothing.
    pub fn update_index(&mut self, parsed_result: ParsedResult)
        requires
            old(self).wf(),
            old(self)@.document_count < usize::MAX,
        ensures
            final(self).wf(),
            final(self).work_dir_view() == old(self).work_dir_view(),
            final(self)@ == merged(
                old(self)@,
                parsed_result.path(),
                parsed_result.parser(),
                terms_of(parsed_result.content()),
            ),
    {
        if self.by_path.contains_key(parsed_result.path.as_str()) {
            return;
        }
        let ghost old_view = self@;
        let ParsedResult { content, path, parser } = parsed_result;
        let terms = TermCollector::new(content.as_str()).collect_terms();
        let ghost s = string_views(terms@);
        let term_freq = TermTable::from_terms(&terms);
        let total_term_count = terms.len();
        let h = self.docs.len();
        let ghost p = path@;
        let ghost old_postings = self.postings@;
        let ghost old_vocabulary = self.vocabulary@;
        let ghost old_term_ids = self.term_ids@;
        let ghost old_docs = self.docs@;
        let ghost old_n = old_postings.len();
        proof {
            assert forall|t: Seq<char>| #[trigger] term_counts(s).contains_key(t) implies 1
                <= term_counts(s)[t] <= s.len() by {
                lemma_occurrences_bound(s, t);
            }
        }
        self.by_path.insert(path.clone(), h);
        self.docs.push(Document::new(parser, path, total_term_count, term_freq));
        let mut k: usize = 0;
        while k < terms.len()
            invariant
                s == string_views(terms@),
                k <= s.len(),
                h == old_docs.len(),
                h < usize::MAX,
                self.docs@.len() == h + 1,
                self.docs@.subrange(0, h as int) == old_docs,
                self.docs@[h as int].path() == p,
                self.docs@[h as int]@ == (DocView {
                    extractor: parser,
                    total_terms: s.len(),
                    term_frequency: term_counts(s),
                }),
                self.work_dir == old(self).work_dir,
                self.by_path@ == old(self).by_path@.insert(p, h),
                forall|id: int, j: int|
                    0 <= id < old_n && 0 <= j < old_postings[id]@.len() ==> #[trigger]
                    old_postings[id]@[j] < h,
                self.vocabulary@.len() == self.postings@.len(),
                old_n <= self.postings@.len(),
                self.vocabulary@.subrange(0, old_n as int) == old_vocabulary,
                forall|t: Seq<char>|
                    #[trigger] self.term_ids@.contains_key(t) <==> (old_term_ids.contains_key(t)
                        || s.subrange(0, k as int).contains(t)),
                forall|t: Seq<char>|
                    #[trigger] old_term_ids.contains_key(t) ==> self.term_ids@[t]
                        == old_term_ids[t],
                forall|t: Seq<char>|
                    #[trigger] self.term_ids@.contains_key(t) ==> self.term_ids@[t]
                        < self.postings@.len() && self.vocabulary@[self.term_ids@[t] as int] == t,
                forall|id: int|
                    0 <= id < self.postings@.len() ==> #[trigger] self.term_ids@.contains_key(
                        self.vocabulary@[id],
                    ) && self.term_ids@[self.vocabulary@[id]] == id,
                forall|id: int|
                    #![trigger self.postings@[id]]
                    0 <= id < old_n ==> self.postings@[id]@ == if s.subrange(0, k as int).contains(
                        self.vocabulary@[id],
                    ) {
                        old_postings[id]@.push(h)
                    } else {
                        old_postings[id]@
                    },
                forall|id: int|
                    #![trigger self.postings@[id]]
                    old_n <= id < self.postings@.len() ==> self.postings@[id]@ == seq![h]
                        && s.subrange(0, k as int).contains(self.vocabulary@[id]),
            decreases s.len() - k,
        {
            let term = &terms[k];
            let ghost j = k as int;
            k = k + 1;
            proof {
                assert(term@ == s[j]);
                lemma_prefix_contains(s, j);
                assert(s.subrange(0, j + 1)[j] == term@);
                assert forall|id: int|
                    old_n <= id < self.postings@.len() implies s.subrange(0, j + 1).contains(
                        self.vocabulary@[id],
                    ) by {
                    assert(self.postings@[id]@ == seq![h]);
                }
            }
            let ghost pre_vocabulary = self.vocabulary@;
            let ghost pre_len = self.postings@.len();
            match self.term_ids.get(term.as_str()) {
                Some(id) => {
                    let id = *id;
                    let n = self.postings[id].len();
                    proof {
                        if (id as int) < old_n && !s.subrange(0, j).contains(term@) {
                            if n > 0 {
                                assert(old_postings[id as int]@[n - 1] < h);
                            }
                        }
                    }
                    if n == 0 || self.postings[id][n - 1] != h {
                        self.postings[id].push(h);
                    }
                },
                None => {
                    let id = self.postings.len();
                    self.term_ids.insert(term.clone(), id);
                    let mut list: Vec<usize> = Vec::new();
                    list.push(h);
                    self.postings.push(list);
                    proof {
                        self.vocabulary@ = self.vocabulary@.push(term@);
                        assert(self.postings@[id as int]@ =~= seq![h]);
                    }
                },
            }
            proof {
                assert forall|id: int|
                    old_n <= id < self.postings@.len() implies s.subrange(0, k as int).contains(
                        self.vocabulary@[id],
                    ) by {
                    if id < pre_len {
                        assert(self.vocabulary@[id] == pre_vocabulary[id]);
                    }
                }
            }
        }
        proof {
            assert(s.subrange(0, s.len() as int) =~= s);
            assert forall|i: int| 0 <= i < h implies #[trigger] self.docs@[i] == old_docs[i] by {
                assert(self.docs@.subrange(0, h as int)[i] == self.docs@[i]);
            }
            assert forall|i: int| 0 <= i < old_n implies #[trigger] self.vocabulary@[i]
                == old_vocabulary[i] by {
                assert(self.vocabulary@.subrange(0, old_n as int)[i] == self.vocabulary@[i]);
            }
            // The paths of an old posting list are those it had, with `p` after them
            // when the document holds its term.
            assert forall|id: int| 0 <= id < old_n implies #[trigger] self.posting_paths(id)
                == if s.contains(self.vocabulary@[id]) {
                old(self).posting_paths(id).push(p)
            } else {
                old(self).posting_paths(id)
            } by {
                let f = |x: usize| self.docs@[x as int].path();
                let g = |x: usize| old_docs[x as int].path();
                assert(old_postings[id]@.map_values(f) =~= old_postings[id]@.map_values(g));
                old_postings[id]@.lemma_push_map_commute(f, h);
            }
            assert forall|id: int| old_n <= id < self.postings@.len() implies #[trigger]
                self.posting_paths(id) == seq![p] by {
                assert(self.posting_paths(id) =~= seq![p]);
            }
            // The new document comes last, so every posting list stays
            // increasing, and it joins the lists of exactly its own terms.
            let n = self.docs@.len();
            assert(forall|g: int|
                0 <= g < n ==> #[trigger] self.by_path@.contains_key(self.docs@[g].path())
                    && self.by_path@[self.docs@[g].path()] == g);
            assert(forall|q: Seq<char>|
                #[trigger] self.by_path@.contains_key(q) ==> self.by_path@[q] < n
                    && self.docs@[self.by_path@[q] as int].path() == q);
            assert(forall|g: int| 0 <= g < n ==> doc_counts_fit(#[trigger] self.docs@[g]@));
            assert(forall|g: int, t: Seq<char>|
                0 <= g < n && #[trigger] self.docs@[g]@.term_frequency.contains_key(t)
                    ==> self.term_ids@.contains_key(t));
            assert(forall|id: int, j: int|
                0 <= id < self.postings@.len() && 0 <= j < self.postings@[id]@.len() ==> #[trigger]
                self.postings@[id]@[j] < n);
            assert(forall|id: int, i: int, j: int|
                0 <= id < self.postings@.len() && 0 <= i < j < self.postings@[id]@.len()
                    ==> #[trigger]
                self.postings@[id]@[i] < #[trigger] self.postings@[id]@[j]);
            assert forall|id: int, g: int|
                0 <= id < self.postings@.len() && 0 <= g < n implies (
                #[trigger] self.postings@[id]@.contains(g as usize)
                    <==> #[trigger] self.docs@[g]@.term_frequency.contains_key(
                    self.vocabulary@[id],
                )) by {
                let t = self.vocabulary@[id];
                let list = self.postings@[id]@;
                if id < old_n {
                    let before = old_postings[id]@;
                    if g < h {
                        assert(before.contains(g as usize)
                            <==> old_docs[g]@.term_frequency.contains_key(
                            old_vocabulary[id],
                        ));
                        if s.contains(t) {
                            if list.contains(g as usize) {
                                let i = choose|i: int| 0 <= i < list.len() && list[i] == g as usize;
                                assert(before[i] == g as usize);
                            }
                            if before.contains(g as usize) {
                                let i = choose|i: int| 0 <= i < before.len() && before[i]
                                    == g as usize;
                                assert(list[i] == g as usize);
                            }
                        }
                    } else if s.contains(t) {
                        assert(list[before.len() as int] == h);
                    } else if list.contains(g as usize) {
                        let i = choose|i: int| 0 <= i < list.len() && list[i] == g as usize;
                        assert(before[i] < h);
                    }
                } else {
                    assert(list[0] == h);
                    if g < h && old_docs[g]@.term_frequency.contains_key(t) {
                        assert(old_term_ids.contains_key(t));
                    }
                }
            }
            assert(self.wf());
            let v = self@;
            let m = merged(old_view, p, parser, s);
            assert(v.documents =~= m.documents);
            assert forall|t: Seq<char>| #[trigger] v.postings.contains_key(t) implies v.postings[t]
                == m.postings[t] by {
                let id = self.term_ids@[t] as int;
                if old_term_ids.contains_key(t) {
                    if s.contains(t) {
                        old(self).posting_paths(id).lemma_push_to_set_commute(p);
                    }
                    assert(v.postings[t] =~= m.postings[t]);
                } else {
                    assert(seq![p].to_set() =~= set![p]) by {
                        let e = Seq::<Seq<char>>::empty();
                        e.lemma_push_to_set_commute(p);
                        assert(e.to_set() =~= Set::<Seq<char>>::empty());
                        assert(seq![p] =~= e.push(p));
                    }
                    assert(v.postings[t] =~= m.postings[t]);
                }
            }
            assert(v.postings =~= m.postings);
            assert(v.document_frequency =~= m.document_frequency);
        }
    }

    /// Merges the files of `results` in order.
    pub fn index_parsed(&mut self, results: Vec<ParsedResult>)
        requires
            old(self).wf(),
            old(self)@.document_count + results@.len() < usize::MAX,
        ensures
            final(self).wf(),
            final(self).work_dir_view() == old(self).work_dir_view(),
            final(self)@ == indexed_from(old(self)@, results@),
    {
        let ghost start = self@;
        let ghost all = results@;
        for parsed in it: results.into_iter()
            invariant
                self.wf(),
                self.work_dir_view() == old(self).work_dir_view(),
                it.seq() == all,
                self@ == indexed_from(start, all.take(it.index() as int)),
                self@.document_count <= start.document_count + it.index(),
                start.document_count + all.len() < usize::MAX,
        {
            let ghost k = it.index() as int;
            proof {
                assert(all.take(k + 1).drop_last() =~= all.take(k));
            }
            self.update_index(parsed);
        }
        proof {
            assert(all.take(all.len() as int) =~= all);
        }
    }

    /// The documents that hold `term`, each once; `None` when no document
    /// holds it.
    pub fn documents(&self, term: &str) -> (r: Option<Vec<&Document>>)
        requires
            self.wf(),
        ensures
            r is None <==> !self@.postings.contains_key(term@),
            r matches Some(v) ==> {
                &&& v@.len() == self@.document_frequency[term@]
                &&& doc_paths(v@).to_set() == self@.postings[term@]
                &&& doc_paths(v@).no_duplicates()
                &&& forall|i: int|
                    0 <= i < v@.len() ==> #[trigger] v@[i]@ == self@.documents[v@[i].path()]
            },
    {
        match self.term_ids.get(term) {
            None => None,
            Some(id) => {
                let id = *id;
                let list = &self.postings[id];
                let mut out: Vec<&Document> = Vec::new();
                let mut k: usize = 0;
                while k < list.len()
                    invariant
                        self.wf(),
                        id < self.postings@.len(),
                        list == self.postings@[id as int],
                        k <= list@.len(),
                        out@.len() == k,
                        forall|i: int|
                            0 <= i < k ==> #[trigger] out@[i] == &self.docs@[list@[i] as int],
                    decreases list@.len() - k,
                {
                    out.push(&self.docs[list[k]]);
                    k = k + 1;
                }
                proof {
                    let t = term@;
                    assert(doc_paths(out@) =~= self.posting_paths(id as int));
                    assert forall|i: int| 0 <= i < out@.len() implies #[trigger] out@[i]@
                        == self@.documents[out@[i].path()] by {
                        let g = list@[i] as int;
                        assert(self.postings@[id as int]@[i] < self.docs@.len());
                        assert(self.by_path@.contains_key(self.docs@[g].path()));
                    }
                    assert forall|i: int, j: int|
                        0 <= i < out@.len() && 0 <= j < out@.len() && i != j implies doc_paths(
                            out@,
                        )[i] != doc_paths(out@)[j] by {
                        let gi = list@[i] as int;
                        let gj = list@[j] as int;
                        assert(self.postings@[id as int]@[i] < self.docs@.len());
                        assert(self.postings@[id as int]@[j] < self.docs@.len());
                        if i < j {
                            assert(list@[i] < list@[j]);
                        } else {
                            assert(list@[j] < list@[i]);
                        }
                        assert(self.by_path@.contains_key(self.docs@[gi].path()));
                        assert(self.by_path@.contains_key(self.docs@[gj].path()));
                    }
                }
                Some(out)
            },
        }
    }

    /// How many documents hold `term`; `1` when none does, so that it can
    /// divide.
    pub fn document_frequency(&self, term: &str) -> (r: usize)
        requires
            self.wf(),
        ensures
            r == frequency_or_one(self@, term@),
    {
        match self.term_ids.get(term) {
            None => 1,
            Some(id) => self.postings[*id].len(),
        }
    }

    /// The documents that hold at least one of `query`, each once, in the
    /// order they were indexed.
    pub(crate) fn candidates(&self, query: &Vec<Term>) -> (r: Vec<&Document>)
        requires
            self.wf(),
        ensures
            doc_paths(r@).no_duplicates(),
            forall|i: int|
                0 <= i < r@.len() ==> self@.documents.contains_key(#[trigger] r@[i].path())
                    && r@[i]@ == self@.documents[r@[i].path()],
            forall|p: Seq<char>|
                #[trigger] doc_paths(r@).contains(p) <==> (self@.documents.contains_key(p)
                    && holds_any(self@.documents[p], string_views(query@))),
    {
        let ghost q = string_views(query@);
        let n = self.docs.len();
        let mut seen: Vec<bool> = Vec::new();
        while seen.len() < n
            invariant
                n == self.docs@.len(),
                seen@.len() <= n,
                forall|g: int| 0 <= g < seen@.len() ==> !#[trigger] seen@[g],
            decreases n - seen@.len(),
        {
            seen.push(false);
        }
        let mut k: usize = 0;
        while k < query.len()
            invariant
                self.wf(),
                n == self.docs@.len(),
                q == string_views(query@),
                k <= q.len(),
                seen@.len() == n,
                forall|g: int|
                    0 <= g < n ==> (#[trigger] seen@[g] <==> holds_any(
                        self.docs@[g]@,
                        q.subrange(0, k as int),
                    )),
            decreases q.len() - k,
        {
            let term = &query[k];
            let ghost kk = k as int;
            let ghost t = q[kk];
            k = k + 1;
            proof {
                lemma_prefix_contains(q, kk);
                assert forall|g: int| 0 <= g < n implies (holds_any(
                    self.docs@[g]@,
                    q.subrange(0, kk + 1),
                ) <==> (holds_any(self.docs@[g]@, q.subrange(0, kk))
                    || #[trigger] self.docs@[g]@.term_frequency.contains_key(t))) by {
                    let d = self.docs@[g]@;
                    assert(q.subrange(0, kk + 1).contains(t));
                    if holds_any(d, q.subrange(0, kk + 1)) {
                        let w = choose|w: Seq<char>| #[trigger] q.subrange(0,
                            kk + 1).contains(w) && d.term_frequency.contains_key(w);
                        if w != t {
                            assert(q.subrange(0, kk).contains(w));
                        }
                    }
                    if holds_any(d, q.subrange(0, kk)) {
                        let w = choose|w: Seq<char>| #[trigger] q.subrange(0, kk).contains(w)
                            && d.term_frequency.contains_key(w);
                        assert(q.subrange(0, kk + 1).contains(w));
                    }
                }
            }
            match self.term_ids.get(term.as_str()) {
                None => {
                    proof {
                        assert(query@[kk]@ == t);
                        assert forall|g: int| 0 <= g < n
                            implies !#[trigger] self.docs@[g]@.term_frequency.contains_key(t) by {
                            if self.docs@[g]@.term_frequency.contains_key(t) {
                                assert(self.term_ids@.contains_key(t));
                            }
                        }
                        assert forall|g: int| 0 <= g < n implies (#[trigger] seen@[g]
                            <==> holds_any(
                            self.docs@[g]@,
                            q.subrange(0, kk + 1),
                        )) by {
                            assert(!self.docs@[g]@.term_frequency.contains_key(t));
                        }
                    }
                },
                Some(id) => {
                    let id = *id;
                    let list = &self.postings[id];
                    let mut j: usize = 0;
                    while j < list.len()
                        invariant
                            self.wf(),
                            n == self.docs@.len(),
                            id < self.postings@.len(),
                            list == self.postings@[id as int],
                            j <= list@.len(),
                            seen@.len() == n,
                            forall|g: int|
                                0 <= g < n ==> (#[trigger] seen@[g] <==> (holds_any(
                                    self.docs@[g]@,
                                    q.subrange(0, kk),
                                ) || list@.subrange(0, j as int).contains(g as usize))),
                        decreases list@.len() - j,
                    {
                        let g = list[j];
                        proof {
                            assert(self.postings@[id as int]@[j as int] < n);
                            assert forall|x: usize| #[trigger] list@.subrange(0,
                                j as int + 1).contains(x)
                                <==> (list@.subrange(0, j as int).contains(x) || x == g) by {
                                if list@.subrange(0, j as int + 1).contains(x) && x != g {
                                    let i = choose|i: int| 0 <= i < j + 1
                                        && #[trigger] list@.subrange(0, j as int + 1)[i] == x;
                                    assert(list@.subrange(0, j as int)[i] == x);
                                }
                                if list@.subrange(0, j as int).contains(x) {
                                    let i = choose|i: int| 0 <= i < j
                                        && #[trigger] list@.subrange(0, j as int)[i] == x;
                                    assert(list@.subrange(0, j as int + 1)[i] == x);
                                }
                                if x == g {
                                    assert(list@.subrange(0, j as int + 1)[j as int] == x);
                                }
                            }
                        }
                        seen.set(g, true);
                        j = j + 1;
                    }
                    proof {
                        assert(list@.subrange(0, list@.len() as int) =~= list@);
                        assert(self.vocabulary@[id as int] == t);
                        assert forall|g: int| 0 <= g < n implies (#[trigger] seen@[g]
                            <==> holds_any(
                            self.docs@[g]@,
                            q.subrange(0, kk + 1),
                        )) by {
                            assert(self.postings@[id as int]@.contains(g as usize)
                                <==> self.docs@[g]@.term_frequency.contains_key(
                                self.vocabulary@[id as int],
                            ));
                        }
                    }
                },
            }
        }
        proof {
            assert(q.subrange(0, q.len() as int) =~= q);
        }
        let mut out: Vec<&Document> = Vec::new();
        let ghost mut handles: Seq<int> = Seq::empty();
        let mut g: usize = 0;
        while g < n
            invariant
                self.wf(),
                n == self.docs@.len(),
                seen@.len() == n,
                g <= n,
                forall|x: int|
                    0 <= x < n ==> (#[trigger] seen@[x] <==> holds_any(self.docs@[x]@, q)),
                out@.len() == handles.len(),
                forall|i: int|
                    0 <= i < handles.len() ==> 0 <= #[trigger] handles[i] < g && out@[i]
                        == &self.docs@[handles[i]],
                forall|i: int, j: int| 0 <= i < j < handles.len() ==> handles[i] < handles[j],
                forall|x: int| 0 <= x < g ==> (seen@[x] <==> handles.contains(x)),
            decreases n - g,
        {
            let ghost before = handles;
            if seen[g] {
                out.push(&self.docs[g]);
                proof {
                    handles = handles.push(g as int);
                }
            }
            proof {
                assert forall|x: int| 0 <= x < g + 1 implies (seen@[x]
                    <==> handles.contains(x)) by {
                    if x < g {
                        if before.contains(x) {
                            let i = choose|i: int| 0 <= i < before.len() && before[i] == x;
                            assert(handles[i] == x);
                        }
                        if handles.contains(x) {
                            let i = choose|i: int| 0 <= i < handles.len() && handles[i] == x;
                            assert(i < before.len());
                            assert(before[i] == x);
                        }
                    } else if seen@[x] {
                        assert(handles[handles.len() - 1] == x);
                    } else if handles.contains(x) {
                        let i = choose|i: int| 0 <= i < handles.len() && handles[i] == x;
                        assert(before[i] < g);
                    }
                }
            }
            g = g + 1;
        }
        proof {
            assert forall|i: int|
                0 <= i < out@.len() implies self@.documents.contains_key(#[trigger] out@[i].path())
                    && out@[i]@ == self@.documents[out@[i].path()] by {
                assert(self.by_path@.contains_key(self.docs@[handles[i]].path()));
            }
            assert forall|i: int, j: int|
                0 <= i < out@.len() && 0 <= j < out@.len() && i != j implies doc_paths(out@)[i]
                    != doc_paths(out@)[j] by {
                assert(self.by_path@.contains_key(self.docs@[handles[i]].path()));
                assert(self.by_path@.contains_key(self.docs@[handles[j]].path()));
            }
            assert forall|p: Seq<char>|
                #[trigger] doc_paths(out@).contains(p) <==> (self@.documents.contains_key(p)
                    && holds_any(self@.documents[p], q)) by {
                if doc_paths(out@).contains(p) {
                    let i = choose|i: int| 0 <= i < out@.len() && doc_paths(out@)[i] == p;
                    assert(self.by_path@.contains_key(self.docs@[handles[i]].path()));
                    assert(handles.contains(handles[i]));
                    assert(seen@[handles[i]]);
                }
                if self@.documents.contains_key(p) && holds_any(self@.documents[p], q) {
                    let x = self.by_path@[p] as int;
                    assert(seen@[x]);
                    assert(handles.contains(x));
                    let i = choose|i: int| 0 <= i < handles.len() && handles[i] == x;
                    assert(doc_paths(out@)[i] == p);
                }
            }
        }
        out
    }

    /// The index's statistics agree with its documents: a term's posting set
    /// holds exactly the documents whose tables hold the term, its document
    /// frequency is the size of that set, no larger than the number of
    /// documents, and the document count is the number of distinct paths.
    pub proof fn lemma_index_invariants(&self)
        requires
            self.wf(),
        ensures
            self@.documents.dom().finite(),
            self@.documents.dom().len() == self@.document_count,
            self@.document_count == 0 ==> self@.documents.dom() == Set::<Seq<char>>::empty(),
            forall|t: Seq<char>|
                #[trigger] self@.postings.contains_key(t)
                    <==> self@.document_frequency.contains_key(t),
            forall|t: Seq<char>|
                #[trigger] self@.postings.contains_key(t) ==> self@.postings[t].finite()
                    && self@.document_frequency[t] == self@.postings[t].len()
                    && 1 <= self@.document_frequency[t] <= self@.document_count,
            forall|t: Seq<char>, p: Seq<char>|
                self@.postings.contains_key(t) && #[trigger] self@.postings[t].contains(p)
                    ==> self@.documents.contains_key(p)
                    && self@.documents[p].term_frequency.contains_key(t),
            forall|t: Seq<char>, p: Seq<char>|
                self@.documents.contains_key(p)
                    && #[trigger] self@.documents[p].term_frequency.contains_key(t)
                    ==> self@.postings.contains_key(t) && self@.postings[t].contains(p),
            forall|p: Seq<char>|
                #[trigger] self@.documents.contains_key(p) ==> doc_counts_fit(self@.documents[p]),
    {
        let v = self@;
        let n = self.docs@.len();
        let ps = self.docs@.map_values(|d: Document| d.path());
        assert forall|i: int, j: int| 0 <= i < ps.len() && 0 <= j < ps.len() && i != j implies ps[i]
            != ps[j] by {
            assert(self.by_path@.contains_key(self.docs@[i].path()));
            assert(self.by_path@.contains_key(self.docs@[j].path()));
        }
        assert(ps.to_set() =~= v.documents.dom()) by {
            assert forall|p: Seq<char>| v.documents.dom().contains(p)
                implies ps.to_set().contains(p) by {
                let g = self.by_path@[p] as int;
                assert(ps[g] == p);
            }
            assert forall|p: Seq<char>| ps.to_set().contains(p)
                implies v.documents.dom().contains(p) by {
                let i = choose|i: int| 0 <= i < ps.len() && ps[i] == p;
                assert(self.by_path@.contains_key(self.docs@[i].path()));
            }
        }
        ps.unique_seq_to_set();
        vstd::seq_lib::seq_to_set_is_finite(ps);
        if n == 0 {
            assert(v.documents.dom() =~= Set::<Seq<char>>::empty());
        }
        assert forall|t: Seq<char>, p: Seq<char>|
            (v.postings.contains_key(t) && #[trigger] v.postings[t].contains(p)) <==> (
            v.documents.contains_key(p)
                && #[trigger] v.documents[p].term_frequency.contains_key(t)) by {
            if v.postings.contains_key(t) && v.postings[t].contains(p) {
                let id = self.term_ids@[t] as int;
                let pp = self.posting_paths(id);
                let i = choose|i: int| 0 <= i < pp.len() && pp[i] == p;
                let g = self.postings@[id]@[i] as int;
                assert(self.postings@[id]@[i] < n);
                assert(self.postings@[id]@.contains(g as usize));
                assert(self.by_path@.contains_key(self.docs@[g].path()));
            }
            if v.documents.contains_key(p) && v.documents[p].term_frequency.contains_key(t) {
                let g = self.by_path@[p] as int;
                assert(self.docs@[g]@.term_frequency.contains_key(t));
                assert(self.term_ids@.contains_key(t));
                let id = self.term_ids@[t] as int;
                assert(self.postings@[id]@.contains(g as usize));
                let i = choose|i: int| 0 <= i < self.postings@[id]@.len()
                    && self.postings@[id]@[i] == g as usize;
                assert(self.posting_paths(id)[i] == p);
            }
        }
        assert forall|t: Seq<char>| #[trigger] v.postings.contains_key(t)
            implies v.postings[t].finite()
            && v.document_frequency[t] == v.postings[t].len() && 1 <= v.document_frequency[t]
            <= v.document_count by {
            let id = self.term_ids@[t] as int;
            assert(self.postings@[id]@.len() > 0);
            let pp = self.posting_paths(id);
            let list = self.postings@[id]@;
            assert forall|i: int, j: int| 0 <= i < pp.len() && 0 <= j < pp.len() && i != j
                implies pp[i]
                != pp[j] by {
                assert(list[i] < n);
                assert(list[j] < n);
                if i < j {
                    assert(list[i] < list[j]);
                } else {
                    assert(list[j] < list[i]);
                }
                assert(self.by_path@.contains_key(self.docs@[list[i] as int].path()));
                assert(self.by_path@.contains_key(self.docs@[list[j] as int].path()));
            }
            pp.unique_seq_to_set();
            vstd::seq_lib::seq_to_set_is_finite(pp);
            assert forall|p: Seq<char>| v.postings[t].contains(p)
                implies v.documents.dom().contains(p) by {
                assert(v.postings.contains_key(t) && v.postings[t].contains(p));
            }
            vstd::set_lib::lemma_len_subset(v.postings[t], v.documents.dom());
        }
        assert forall|p: Seq<char>| #[trigger] v.documents.contains_key(p) implies doc_counts_fit(
            v.documents[p],
        ) by {
            assert(self.docs@[self.by_path@[p] as int]@ == v.documents[p]);
        }
    }

    /// The number of indexed documents.
    pub fn total_document_count(&self) -> (r: usize)
        ensures
            r == self@.document_count,
    {
        self.docs.len()
    }
}

} // verus!
