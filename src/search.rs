//! Ranked search: the candidates of a query and, for each, the term and
//! document frequencies that its TF-IDF rank is computed from.
use vstd::prelude::*;
use crate::document::{
    doc_counts_fit, doc_paths, empty_index, frequency_or_one, holds_any, DocView, Document,
        DocumentIndex,
    IndexView, ParsedResult,
};
use crate::merge::{distinct_paths, indexed_from, lemma_indexing_order_irrelevant};
use crate::terms::{string_views, Term};

verus! {

/// What one query term contributes to a document's rank.
pub struct Stat {
    pub query_term: Term,
    /// How often the term occurs in the document.
    pub term_freq: usize,
    /// How many documents hold the term, `1` when none does.
    pub document_freq: usize,
}

/// One candidate document with what its rank is computed from: the sum over
/// the query terms of `term_freq / total_term_count` times
/// `log10(total_documents / document_freq)`.
pub struct Result<'a> {
    pub total_documents: usize,
    pub document: &'a Document,
    pub stats: Vec<Stat>,
}

/// How often `t` occurs in `d`, `0` when it does not.
pub open spec fn frequency_or_zero(d: DocView, t: Seq<char>) -> nat {
    if d.term_frequency.contains_key(t) {
        d.term_frequency[t]
    } else {
        0
    }
}

/// The query terms that a list of statistics speaks of.
pub open spec fn stat_terms(stats: Seq<Stat>) -> Seq<Seq<char>> {
    stats.map_values(|s: Stat| s.query_term@)
}

/// `stats` holds, once for each distinct term of `q`, the frequencies that
/// document `d` of index `m` has for it.
pub open spec fn stats_for(m: IndexView, d: DocView, q: Seq<Seq<char>>, stats: Seq<Stat>) -> bool {
    &&& stat_terms(stats).no_duplicates()
    &&& stat_terms(stats).to_set() == q.to_set()
    &&& forall|k: int|
        0 <= k < stats.len() ==> (#[trigger] stats[k]).term_freq == frequency_or_zero(
            d,
            stats[k].query_term@,
        ) && stats[k].document_freq == frequency_or_one(m, stats[k].query_term@)
}

/// The distinct terms of `q`, in the order in which they first occur.
pub open spec fn first_occurrences(q: Seq<Seq<char>>) -> Seq<Seq<char>>
    decreases q.len(),
{
    if q.len() == 0 {
        Seq::empty()
    } else {
        let before = first_occurrences(q.drop_last());
        if before.contains(q.last()) {
            before
        } else {
            before.push(q.last())
        }
    }
}

/// The documents of a list of results.
pub open spec fn result_paths(r: Seq<Result>) -> Seq<Seq<char>> {
    r.map_values(|x: Result| x.document.path())
}

/// `r` is what a search for the terms `q` returns on an index whose view is
/// `m`: each document that holds one of the terms, once, with the statistics
/// of each distinct term.
pub open spec fn search_spec(m: IndexView, q: Seq<Seq<char>>, r: Seq<Result>) -> bool {
    &&& result_paths(r).no_duplicates()
    &&& forall|i: int|
        0 <= i < r.len() ==> {
            let x = #[trigger] r[i];
            &&& x.total_documents == m.document_count
            &&& m.documents.contains_key(x.document.path())
            &&& x.document@ == m.documents[x.document.path()]
            &&& stats_for(m, x.document@, q, x.stats@)
            &&& stat_terms(x.stats@) == first_occurrences(q)
        }
    &&& forall|p: Seq<char>|
        #[trigger] result_paths(r).contains(p) <==> (m.documents.contains_key(p) && holds_any(
            m.documents[p],
            q,
        ))
}

/// Answers queries against a finished index.
pub struct RankedSearcher<'a> {
    document_index: &'a DocumentIndex,
}

impl<'a> RankedSearcher<'a> {
    /// The index searched.
    pub closed spec fn index(&self) -> &'a DocumentIndex {
        self.document_index
    }

    pub fn new(document_index: &'a DocumentIndex) -> (r: Self)
        ensures
            r.index() == document_index,
    {
        RankedSearcher { document_index }
    }

    /// Every document that holds at least one of the query terms, once, with
    /// the statistics of each distinct query term. Repeated query terms count
    /// once. A term that no document holds contributes a term frequency of `0`
    /// against a document frequency of `1`, so nothing divides by zero. The
    /// contract fixes the documents as a set; ordering them by rank is left to
    /// the caller.
    pub fn search(&self, terms: &Vec<Term>) -> (r: Vec<Result<'a>>)
        requires
            self.index().wf(),
        ensures
            search_spec(self.index()@, string_views(terms@), r@),
            forall|i: int|
                0 <= i < r@.len() ==> (#[trigger] r@[i]).document@.total_terms >= 1
                    && forall|k: int|
                    0 <= k < r@[i].stats@.len() ==> #[trigger] r@[i].stats@[k].document_freq >= 1,
            forall|i: int, k: int|
                0 <= i < r@.len() && 0 <= k < r@[i].stats@.len()
                    && !self.index()@.document_frequency.contains_key(
                    #[trigger] r@[i].stats@[k].query_term@,
                ) ==> r@[i].stats@[k].term_freq == 0 && r@[i].stats@[k].document_freq == 1,
            terms@.len() == 0 ==> r@.len() == 0,
            self.index()@.document_count == 0 ==> r@.len() == 0,
    {
        let query = distinct_terms(terms);
        let found = self.document_index.candidates(&query);
        let r = self.generate_results(&query, &found);
        proof {
            let q = string_views(terms@);
            let qd = string_views(query@);
            let m = self.index()@;
            assert(result_paths(r@) =~= doc_paths(found@));
            assert forall|p: Seq<char>|
                #[trigger] result_paths(r@).contains(p) <==> (m.documents.contains_key(p)
                    && holds_any(m.documents[p], q)) by {
                assert(result_paths(r@) =~= doc_paths(found@));
                if m.documents.contains_key(p) {
                    let d = m.documents[p];
                    if holds_any(d, q) {
                        let w = choose|w: Seq<char>| #[trigger] q.contains(w)
                            && d.term_frequency.contains_key(w);
                        assert(q.to_set().contains(w));
                        assert(qd.to_set().contains(w));
                    }
                    if holds_any(d, qd) {
                        let w = choose|w: Seq<char>| #[trigger] qd.contains(w)
                            && d.term_frequency.contains_key(w);
                        assert(qd.to_set().contains(w));
                        assert(q.to_set().contains(w));
                    }
                }
            }
            assert(q.to_set() =~= qd.to_set());
            self.document_index.lemma_index_invariants();
            assert forall|i: int| 0 <= i < r@.len()
                implies (#[trigger] r@[i]).document@.total_terms >= 1
                && forall|k: int|
                0 <= k < r@[i].stats@.len() ==> #[trigger] r@[i].stats@[k].document_freq >= 1 by {
                let p = r@[i].document.path();
                assert(result_paths(r@)[i] == p);
                assert(result_paths(r@).contains(p));
                let d = m.documents[p];
                let w = choose|w: Seq<char>| #[trigger] q.contains(w)
                    && d.term_frequency.contains_key(w);
                assert(doc_counts_fit(d));
                assert(1 <= d.term_frequency[w] <= d.total_terms);
                assert forall|k: int| 0 <= k < r@[i].stats@.len()
                    implies #[trigger] r@[i].stats@[k].document_freq >= 1 by {
                    let t = r@[i].stats@[k].query_term@;
                    if m.document_frequency.contains_key(t) {
                        assert(m.postings.contains_key(t));
                    }
                }
            }
            assert forall|i: int, k: int|
                0 <= i < r@.len() && 0 <= k < r@[i].stats@.len()
                    && !m.document_frequency.contains_key(
                    #[trigger] r@[i].stats@[k].query_term@,
                ) implies r@[i].stats@[k].term_freq == 0 && r@[i].stats@[k].document_freq == 1 by {
                let t = r@[i].stats@[k].query_term@;
                let p = r@[i].document.path();
                assert(!m.postings.contains_key(t));
                assert(!m.documents[p].term_frequency.contains_key(t));
            }
            if r@.len() > 0 {
                assert(result_paths(r@)[0] == r@[0].document.path());
                assert(result_paths(r@).contains(r@[0].document.path()));
                if terms@.len() == 0 {
                    let d = m.documents[r@[0].document.path()];
                    let w = choose|w: Seq<char>| #[trigger] q.contains(w)
                        && d.term_frequency.contains_key(w);
                }
            }
        }
        r
    }

    /// A result for each of `found_documents`, with the statistics of each
    /// of `query_terms`.
    fn generate_results(&self, query_terms: &Vec<Term>, found_documents: &Vec<&'a Document>) -> (r:
        Vec<Result<'a>>)
        requires
            self.index().wf(),
            forall|i: int|
                0 <= i < found_documents@.len() ==> self.index()@.documents.contains_key(
                    #[trigger] found_documents@[i].path(),
                ) && found_documents@[i]@ == self.index()@.documents[found_documents@[i].path()],
            string_views(query_terms@).no_duplicates(),
        ensures
            r@.len() == found_documents@.len(),
            forall|i: int|
                0 <= i < r@.len() ==> {
                    let x = #[trigger] r@[i];
                    &&& x.document == found_documents@[i]
                    &&& x.total_documents == self.index()@.document_count
                    &&& stat_terms(x.stats@) == string_views(query_terms@)
                    &&& stats_for(
                        self.index()@,
                        x.document@,
                        string_views(query_terms@),
                        x.stats@,
                    )
                },
    {
        let mut result: Vec<Result<'a>> = Vec::new();
        let total_documents = self.document_index.total_document_count();
        let mut i: usize = 0;
        while i < found_documents.len()
            invariant
                self.index().wf(),
                total_documents == self.index()@.document_count,
                i <= found_documents@.len(),
                result@.len() == i,
                string_views(query_terms@).no_duplicates(),
                forall|j: int|
                    0 <= j < i ==> {
                        let x = #[trigger] result@[j];
                        &&& x.document == found_documents@[j]
                        &&& x.total_documents == self.index()@.document_count
                        &&& stat_terms(x.stats@) == string_views(query_terms@)
                        &&& stats_for(
                            self.index()@,
                            x.document@,
                            string_views(query_terms@),
                            x.stats@,
                        )
                    },
            decreases found_documents@.len() - i,
        {
            let document = found_documents[i];
            let mut stats: Vec<Stat> = Vec::new();
            let mut k: usize = 0;
            while k < query_terms.len()
                invariant
                    self.index().wf(),
                    k <= query_terms@.len(),
                    stats@.len() == k,
                    forall|j: int|
                        0 <= j < k ==> (#[trigger] stats@[j]).query_term@ == query_terms@[j]@
                            && stats@[j].term_freq == frequency_or_zero(
                            document@,
                            stats@[j].query_term@,
                        ) && stats@[j].document_freq == frequency_or_one(
                            self.index()@,
                            stats@[j].query_term@,
                        ),
                decreases query_terms@.len() - k,
            {
                let query_term = &query_terms[k];
                let document_freq = self.document_index.document_frequency(query_term.as_str());
                let term_freq = document.term_frequency(query_term.as_str());
                stats.push(Stat { query_term: query_term.clone(), term_freq, document_freq });
                k = k + 1;
            }
            proof {
                assert(stat_terms(stats@) =~= string_views(query_terms@));
            }
            result.push(Result { total_documents, document, stats });
            i = i + 1;
        }
        result
    }
}

/// Two lists of statistics give a rank the same inputs: the same terms in the
/// same order, and
/// for each term the same frequencies.
pub open spec fn same_rank_inputs(a: Seq<Stat>, b: Seq<Stat>) -> bool {
    &&& stat_terms(a) == stat_terms(b)
    &&& forall|k: int, l: int|
        0 <= k < a.len() && 0 <= l < b.len() && #[trigger] a[k].query_term@
            == #[trigger] b[l].query_term@ ==> a[k].term_freq == b[l].term_freq
            && a[k].document_freq == b[l].document_freq
}

/// Searching is deterministic in what ranks are computed from: indexing the
/// same files in any order (as any number of workers may) and searching for
/// the same terms gives the same documents, and for each document the same
/// corpus size, the same table and the same statistics, so the same
/// `(path, rank)` pairs.
pub proof fn lemma_ranking_deterministic(
    a: Seq<ParsedResult>,
    b: Seq<ParsedResult>,
    q: Seq<Seq<char>>,
    ra: Seq<Result>,
    rb: Seq<Result>,
)
    requires
        distinct_paths(a),
        a.to_multiset() == b.to_multiset(),
        search_spec(indexed_from(empty_index(), a), q, ra),
        search_spec(indexed_from(empty_index(), b), q, rb),
    ensures
        ra.len() == rb.len(),
        result_paths(ra).to_set() == result_paths(rb).to_set(),
        forall|i: int, j: int|
            0 <= i < ra.len() && 0 <= j < rb.len() && #[trigger] ra[i].document.path()
                == #[trigger] rb[j].document.path() ==> ra[i].document@ == rb[j].document@
                && ra[i].total_documents == rb[j].total_documents && same_rank_inputs(
                ra[i].stats@,
                rb[j].stats@,
            ),
{
    lemma_indexing_order_irrelevant(empty_index(), a, b);
    let m = indexed_from(empty_index(), a);
    let pa = result_paths(ra);
    let pb = result_paths(rb);
    assert(pa.to_set() =~= pb.to_set()) by {
        assert forall|p: Seq<char>| pa.to_set().contains(p) <==> pb.to_set().contains(p) by {
            assert(pa.contains(p) <==> pb.contains(p));
        }
    }
    pa.unique_seq_to_set();
    pb.unique_seq_to_set();
    assert forall|i: int, j: int|
        0 <= i < ra.len() && 0 <= j < rb.len() && #[trigger] ra[i].document.path()
            == #[trigger] rb[j].document.path() implies ra[i].document@ == rb[j].document@
            && ra[i].total_documents == rb[j].total_documents && same_rank_inputs(
            ra[i].stats@,
            rb[j].stats@,
        ) by {
        let x = ra[i];
        let y = rb[j];
        assert(stats_for(m, x.document@, q, x.stats@));
        assert(stats_for(m, y.document@, q, y.stats@));
        assert forall|k: int, l: int|
            0 <= k < x.stats@.len() && 0 <= l < y.stats@.len() && #[trigger] x.stats@[k].query_term@
                == #[trigger] y.stats@[l].query_term@ implies x.stats@[k].term_freq
                == y.stats@[l].term_freq && x.stats@[k].document_freq
                    == y.stats@[l].document_freq by {
            assert(x.stats@[k].term_freq == frequency_or_zero(x.document@,
                x.stats@[k].query_term@));
            assert(y.stats@[l].term_freq == frequency_or_zero(y.document@,
                y.stats@[l].query_term@));
        }
    }
}

/// The terms of `terms`, each once, in the order they first occur.
fn distinct_terms(terms: &Vec<Term>) -> (r: Vec<Term>)
    ensures
        string_views(r@) == first_occurrences(string_views(terms@)),
        string_views(r@).no_duplicates(),
        string_views(r@).to_set() == string_views(terms@).to_set(),
{
    let ghost s = string_views(terms@);
    let mut out: Vec<Term> = Vec::new();
    let mut k: usize = 0;
    while k < terms.len()
        invariant
            s == string_views(terms@),
            k <= s.len(),
            string_views(out@).no_duplicates(),
            string_views(out@) == first_occurrences(s.subrange(0, k as int)),
            forall|t: Seq<char>|
                #[trigger] string_views(out@).contains(t) <==> s.subrange(0, k as int).contains(t),
        decreases s.len() - k,
    {
        let term = &terms[k];
        let ghost kk = k as int;
        k = k + 1;
        let mut seen = false;
        let mut j: usize = 0;
        while j < out.len()
            invariant
                j <= out@.len(),
                seen <==> exists|i: int| 0 <= i < j && #[trigger] out@[i]@ == term@,
            decreases out@.len() - j,
        {
            if out[j] == *term {
                seen = true;
            }
            j = j + 1;
        }
        proof {
            assert(term@ == s[kk]);
            assert(s.subrange(0, kk + 1).drop_last() =~= s.subrange(0, kk));
            assert(s.subrange(0, kk + 1).last() == term@);
            assert forall|t: Seq<char>|
                #[trigger] s.subrange(0, kk + 1).contains(t) <==> (s.subrange(0, kk).contains(t)
                    || s[kk] == t) by {
                if s.subrange(0, kk + 1).contains(t) && s[kk] != t {
                    let i = choose|i: int| 0 <= i < kk + 1 && #[trigger] s.subrange(0,
                        kk + 1)[i] == t;
                    assert(s.subrange(0, kk)[i] == t);
                }
                if s.subrange(0, kk).contains(t) {
                    let i = choose|i: int| 0 <= i < kk && #[trigger] s.subrange(0, kk)[i] == t;
                    assert(s.subrange(0, kk + 1)[i] == t);
                }
                if s[kk] == t {
                    assert(s.subrange(0, kk + 1)[kk] == t);
                }
            }
            if seen {
                let i = choose|i: int| 0 <= i < out@.len() && #[trigger] out@[i]@ == term@;
                assert(string_views(out@)[i] == term@);
            }
        }
        if !seen {
            let ghost before = string_views(out@);
            out.push(term.clone());
            proof {
                assert(string_views(out@) =~= before.push(term@));
                assert forall|t: Seq<char>| #[trigger] string_views(out@).contains(t)
                    <==> (before.contains(t) || t == term@) by {
                    if string_views(out@).contains(t) && t != term@ {
                        let i = choose|i: int| 0 <= i < string_views(out@).len()
                            && #[trigger] string_views(out@)[i] == t;
                        assert(before[i] == t);
                    }
                    if before.contains(t) {
                        let i = choose|i: int| 0 <= i < before.len() && #[trigger] before[i] == t;
                        assert(string_views(out@)[i] == t);
                    }
                    if t == term@ {
                        assert(string_views(out@)[before.len() as int] == t);
                    }
                }
                assert(!before.contains(term@)) by {
                    if before.contains(term@) {
                        let i = choose|i: int| 0 <= i < before.len() && #[trigger] before[i]
                            == term@;
                        assert(out@[i]@ == term@);
                    }
                }
            }
        }
    }
    proof {
        assert(s.subrange(0, s.len() as int) =~= s);
        assert(string_views(out@).to_set() =~= s.to_set());
    }
    out
}

} // verus!
