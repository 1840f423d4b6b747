//! Merging is order-independent: an index built from a set of files does
//! not depend on the order in which the files were merged.
use vstd::prelude::*;
use crate::document::{merged, IndexView, ParsedResult};
use crate::terms::terms_of;

verus! {

/// The index `m` once file `f` has been merged into it.
pub open spec fn merged_file(m: IndexView, f: ParsedResult) -> IndexView {
    merged(m, f.path(), f.parser(), terms_of(f.content()))
}

/// The index `m` once the files of `files` have been merged into it, in
/// order.
pub open spec fn indexed_from(m: IndexView, files: Seq<ParsedResult>) -> IndexView
    decreases files.len(),
{
    if files.len() == 0 {
        m
    } else {
        merged_file(indexed_from(m, files.drop_last()), files.last())
    }
}

/// No two of `files` lie at the same path.
pub open spec fn distinct_paths(files: Seq<ParsedResult>) -> bool {
    forall|i: int, j: int|
        0 <= i < files.len() && 0 <= j < files.len() && i != j ==> #[trigger] files[i].path()
            != #[trigger] files[j].path()
}

/// A document is identified by its path alone: merging a second file at a
/// path that is already indexed leaves the index as the first file left it,
/// so no posting set holds the path twice and no count grows.
pub proof fn lemma_same_path_merged_once(m: IndexView, x: ParsedResult, y: ParsedResult)
    requires
        x.path() == y.path(),
    ensures
        merged_file(merged_file(m, x), y) == merged_file(m, x),
{
    assert(merged_file(m, x).documents.contains_key(x.path()));
}

/// Two files at different paths can be merged in either order.
proof fn lemma_merge_commutes(m: IndexView, x: ParsedResult, y: ParsedResult)
    requires
        x.path() != y.path(),
    ensures
        merged_file(merged_file(m, x), y) == merged_file(merged_file(m, y), x),
{
    let mx = merged_file(m, x);
    let my = merged_file(m, y);
    if m.documents.contains_key(x.path()) {
        assert(my.documents.contains_key(x.path()));
    } else if m.documents.contains_key(y.path()) {
        assert(mx.documents.contains_key(y.path()));
    } else {
        let l = merged_file(mx, y);
        let r = merged_file(my, x);
        assert(!mx.documents.contains_key(y.path()));
        assert(!my.documents.contains_key(x.path()));
        assert(l.documents =~= r.documents);
        assert forall|t: Seq<char>| #[trigger] l.postings.contains_key(t) implies l.postings[t]
            == r.postings[t] by {
            assert(l.postings[t] =~= r.postings[t]);
        }
        assert(l.postings =~= r.postings);
        assert(l.document_frequency =~= r.document_frequency);
    }
}

/// Merging the file at position `i` last gives the same index.
proof fn lemma_move_to_end(m: IndexView, s: Seq<ParsedResult>, i: int)
    requires
        distinct_paths(s),
        0 <= i < s.len(),
    ensures
        indexed_from(m, s) == indexed_from(m, s.remove(i).push(s[i])),
    decreases s.len(),
{
    let t = s.remove(i).push(s[i]);
    if i == s.len() - 1 {
        assert(t =~= s);
    } else {
        let d = s.drop_last();
        assert forall|a: int, b: int|
            0 <= a < d.len() && 0 <= b < d.len() && a != b implies #[trigger] d[a].path()
                != #[trigger] d[b].path() by {
            assert(d[a] == s[a] && d[b] == s[b]);
        }
        lemma_move_to_end(m, d, i);
        assert(d[i] == s[i]);
        let x = indexed_from(m, d.remove(i));
        assert(d.remove(i).push(d[i]).drop_last() =~= d.remove(i));
        assert(d.remove(i).push(d[i]).last() == s[i]);
        assert(s[i].path() != s.last().path()) by {
            assert(s.last() == s[s.len() - 1]);
        }
        lemma_merge_commutes(x, s[i], s.last());
        assert(t.drop_last() =~= s.remove(i));
        assert(t.last() == s[i]);
        assert(s.remove(i).drop_last() =~= d.remove(i));
        assert(s.remove(i).last() == s.last());
        assert(indexed_from(m, d) == merged_file(x, s[i]));
        assert(indexed_from(m, s) == merged_file(merged_file(x, s[i]), s.last()));
        assert(indexed_from(m, s.remove(i)) == merged_file(x, s.last()));
        assert(indexed_from(m, t) == merged_file(merged_file(x, s.last()), s[i]));
    }
}

/// Indexing the same files in any order yields the same index: the same
/// documents, the same posting sets and document frequencies, and the same
/// document count, provided no two files lie at the same path.
pub proof fn lemma_indexing_order_irrelevant(m: IndexView, a: Seq<ParsedResult>,
    b: Seq<ParsedResult>)
    requires
        distinct_paths(a),
        a.to_multiset() == b.to_multiset(),
    ensures
        indexed_from(m, a) == indexed_from(m, b),
    decreases a.len(),
{
    broadcast use vstd::seq_lib::group_to_multiset_ensures;

    assert(a.len() == b.len()) by {
        vstd::seq_lib::to_multiset_len(a);
        vstd::seq_lib::to_multiset_len(b);
    }
    if a.len() > 0 {
        let x = b.last();
        assert(b.contains(x)) by {
            assert(b[b.len() - 1] == x);
        }
        assert(a.to_multiset().count(x) > 0);
        assert(a.contains(x));
        let i = choose|i: int| 0 <= i < a.len() && a[i] == x;
        lemma_move_to_end(m, a, i);
        let rest = a.remove(i);
        assert forall|p: int, q: int|
            0 <= p < rest.len() && 0 <= q < rest.len() && p != q implies #[trigger] rest[p].path()
                != #[trigger] rest[q].path() by {
            let pp = if p < i { p } else { p + 1 };
            let qq = if q < i { q } else { q + 1 };
            assert(rest[p] == a[pp] && rest[q] == a[qq]);
        }
        assert(b.drop_last() =~= b.remove(b.len() - 1));
        assert(rest.to_multiset() =~= b.drop_last().to_multiset());
        lemma_indexing_order_irrelevant(m, rest, b.drop_last());
        assert(rest.push(x).drop_last() =~= rest);
        assert(rest.push(x).last() == x);
    }
}

} // verus!
