//! Best-match selection: queries are projected into the column space of an
//! index, every query is scored against every catalog row, and the row with
//! the highest score wins, the lowest row index among equals.
//!
//! A score enters here as a key: an unsigned integer that grows with the
//! similarity it stands for and is zero where the similarity is zero.
//! Where a vector weighs nothing, which the counts of the index decide
//! exactly, the similarity is zero by definition and the key handed in is
//! not consulted.

use crate::index::{index_wf, lemma_entries_determined, row_models, IndexModel, TfidfIndex};
use crate::matrix::{
    cols_below, compute_tfidf_matrix, count_at, entries_wf, has_col, is_row_of,
    lemma_count_at_stored, lemma_occurrences, lemma_occurrences_multiset, occurrences, weighted,
    Entry, RowModel, SparseRow,
};
use crate::text::{corpus_terms, normalized, Normalizer};
use vstd::hash_map::StringHashMap;
use vstd::prelude::*;

verus! {

/// `best` is the winning row for `scores`: no row scores higher, and every
/// row before it scores strictly lower. With no rows at all it is zero.
pub open spec fn is_best(scores: Seq<u64>, best: int) -> bool {
    if scores.len() == 0 {
        best == 0
    } else {
        &&& 0 <= best < scores.len()
        &&& forall|j: int| 0 <= j < scores.len() ==> scores[j] <= scores[best]
        &&& forall|j: int| 0 <= j < best ==> scores[j] < scores[best]
    }
}

/// The winning row for `scores`.
pub open spec fn best_index(scores: Seq<u64>) -> int {
    choose|best: int| is_best(scores, best)
}

/// There is only one winning row.
pub proof fn lemma_best_unique(scores: Seq<u64>, a: int, b: int)
    requires
        is_best(scores, a),
        is_best(scores, b),
    ensures
        a == b,
        best_index(scores) == a,
{
    if scores.len() > 0 {
        if a < b {
            assert(scores[a] < scores[b]);
            assert(scores[b] <= scores[a]);
        } else if b < a {
            assert(scores[b] < scores[a]);
            assert(scores[a] <= scores[b]);
        }
        let c = best_index(scores);
        if a < c {
            assert(scores[a] < scores[c]);
            assert(scores[c] <= scores[a]);
        } else if c < a {
            assert(scores[c] < scores[a]);
            assert(scores[a] <= scores[c]);
        }
    }
}

/// A row that scores strictly above every other row wins.
pub proof fn lemma_strict_maximum_wins(scores: Seq<u64>, i: int)
    requires
        0 <= i < scores.len(),
        forall|j: int| 0 <= j < scores.len() && j != i ==> scores[j] < scores[i],
    ensures
        best_index(scores) == i,
{
    assert(is_best(scores, i));
    lemma_best_unique(scores, i, i);
}

/// When every row scores the same, zero included, the first row wins.
pub proof fn lemma_uniform_scores_pick_first(scores: Seq<u64>)
    requires
        forall|j: int| 0 <= j < scores.len() ==> #[trigger] scores[j] == scores[0],
    ensures
        best_index(scores) == 0,
{
    assert(is_best(scores, 0));
    lemma_best_unique(scores, 0, 0);
}

/// A document none of whose terms the vocabulary holds projects to a row
/// without cells: the zero vector.
pub proof fn lemma_unknown_terms_empty_row(
    row: RowModel,
    doc: Seq<Seq<char>>,
    terms: Seq<Seq<char>>,
    doc_freq: Seq<u64>,
    num_docs: u64,
)
    requires
        is_row_of(row, doc, terms, doc_freq, num_docs),
        forall|k: int| 0 <= k < doc.len() ==> !terms.contains(#[trigger] doc[k]),
    ensures
        row.entries.len() == 0,
{
    if row.entries.len() > 0 {
        let col = row.entries[0].col as int;
        lemma_count_at_stored(row.entries, 0);
        lemma_occurrences(doc, terms[col]);
        assert(count_at(row.entries, col) == if weighted(doc_freq, num_docs, col) {
            occurrences(doc, terms[col])
        } else {
            0
        });
        let k = choose|k: int| 0 <= k < doc.len() && doc[k] == terms[col];
        assert(terms.contains(doc[k]));
    }
}

/// Two documents with the same bag of terms, in whatever order, project to
/// the same row: same length, same columns, same counts.
pub proof fn lemma_same_terms_same_row(
    x: RowModel,
    y: RowModel,
    query: Seq<Seq<char>>,
    doc: Seq<Seq<char>>,
    terms: Seq<Seq<char>>,
    doc_freq: Seq<u64>,
    num_docs: u64,
)
    requires
        is_row_of(x, query, terms, doc_freq, num_docs),
        is_row_of(y, doc, terms, doc_freq, num_docs),
        query.to_multiset() == doc.to_multiset(),
    ensures
        x == y,
{
    broadcast use vstd::seq_lib::group_to_multiset_ensures;

    assert(query.len() == doc.len()) by {
        assert(query.to_multiset().len() == query.len());
        assert(doc.to_multiset().len() == doc.len());
    }
    assert forall|c: int| count_at(x.entries, c) == count_at(
        y.entries,
        c,
    ) by {
        if 0 <= c < terms.len() {
            lemma_occurrences_multiset(query, terms[c]);
            lemma_occurrences_multiset(doc, terms[c]);
            assert(count_at(x.entries, c) == if weighted(doc_freq, num_docs, c) {
                occurrences(query, terms[c])
            } else {
                0
            });
            assert(count_at(y.entries, c) == if weighted(doc_freq, num_docs, c) {
                occurrences(doc, terms[c])
            } else {
                0
            });
        } else {
            if has_col(x.entries, c) {
                let k = choose|k: int|
                    0 <= k < x.entries.len() && #[trigger] x.entries[k].col == c;
                assert(x.entries[k].col < terms.len());
            }
            if has_col(y.entries, c) {
                let k = choose|k: int|
                    0 <= k < y.entries.len() && #[trigger] y.entries[k].col == c;
                assert(y.entries[k].col < terms.len());
            }
        }
    }
    lemma_entries_determined(x.entries, y.entries);
}

/// The columns of a row, each with the count one.
pub open spec fn marked(entries: Seq<Entry>) -> Seq<Entry> {
    entries.map_values(|e: Entry| Entry { col: e.col, count: 1 })
}

proof fn lemma_marked(entries: Seq<Entry>, c: int)
    requires
        entries_wf(entries),
    ensures
        entries_wf(marked(entries)),
        has_col(marked(entries), c) <==> has_col(entries, c),
        count_at(marked(entries), c) == if has_col(entries, c) {
            1nat
        } else {
            0nat
        },
{
    let m = marked(entries);
    assert forall|a: int, b: int| 0 <= a < b < m.len() implies m[a].col < m[b].col by {
        assert(entries[a].col < entries[b].col);
    }
    if has_col(entries, c) {
        let k = choose|k: int| 0 <= k < entries.len() && #[trigger] entries[k].col == c;
        assert(m[k].col == c);
        lemma_count_at_stored(m, k);
    }
    if has_col(m, c) {
        let k = choose|k: int| 0 <= k < m.len() && #[trigger] m[k].col == c;
        assert(entries[k].col == c);
    }
}

/// Two documents whose term counts are proportional, the query holding
/// every term `a` times for each `b` times the document holds it, project
/// to rows with the same columns and the same term frequencies: in every
/// cell, count over document length is the same fraction.
pub proof fn lemma_proportional_terms_same_frequencies(
    x: RowModel,
    y: RowModel,
    query: Seq<Seq<char>>,
    doc: Seq<Seq<char>>,
    terms: Seq<Seq<char>>,
    doc_freq: Seq<u64>,
    num_docs: u64,
    a: nat,
    b: nat,
)
    requires
        is_row_of(x, query, terms, doc_freq, num_docs),
        is_row_of(y, doc, terms, doc_freq, num_docs),
        a > 0,
        b > 0,
        query.len() * b == doc.len() * a,
        forall|t: Seq<char>| occurrences(query, t) * b == occurrences(doc, t) * a,
    ensures
        x.entries.len() == y.entries.len(),
        forall|k: int|
            0 <= k < x.entries.len() ==> (#[trigger] x.entries[k]).col == y.entries[k].col
                && x.entries[k].count * y.doc_len == y.entries[k].count * x.doc_len,
{
    let xs = x.entries;
    let ys = y.entries;
    assert forall|c: int| has_col(xs, c) <==> has_col(ys, c) by {
        if has_col(xs, c) {
            let k = choose|k: int| 0 <= k < xs.len() && #[trigger] xs[k].col == c;
            lemma_count_at_stored(xs, k);
            assert(count_at(xs, c) == if weighted(doc_freq, num_docs, c) {
                occurrences(query, terms[c])
            } else {
                0
            });
            assert(count_at(ys, c) == if weighted(doc_freq, num_docs, c) {
                occurrences(doc, terms[c])
            } else {
                0
            });
            lemma_scaled_positive(
                occurrences(query, terms[c]),
                occurrences(doc, terms[c]),
                a,
                b,
            );
        }
        if has_col(ys, c) {
            let k = choose|k: int| 0 <= k < ys.len() && #[trigger] ys[k].col == c;
            lemma_count_at_stored(ys, k);
            assert(count_at(xs, c) == if weighted(doc_freq, num_docs, c) {
                occurrences(query, terms[c])
            } else {
                0
            });
            assert(count_at(ys, c) == if weighted(doc_freq, num_docs, c) {
                occurrences(doc, terms[c])
            } else {
                0
            });
            lemma_scaled_positive(
                occurrences(query, terms[c]),
                occurrences(doc, terms[c]),
                a,
                b,
            );
        }
    }
    assert forall|c: int| count_at(marked(xs), c) == count_at(marked(ys), c) by {
        lemma_marked(xs, c);
        lemma_marked(ys, c);
    }
    lemma_marked(xs, 0);
    lemma_marked(ys, 0);
    lemma_entries_determined(marked(xs), marked(ys));
    assert(xs.len() == marked(xs).len());
    assert(ys.len() == marked(ys).len());
    assert forall|k: int| 0 <= k < xs.len() implies (#[trigger] xs[k]).col == ys[k].col && xs[k].count
        * y.doc_len == ys[k].count * x.doc_len by {
        assert(marked(xs)[k].col == xs[k].col);
        assert(marked(ys)[k].col == ys[k].col);
        let c = xs[k].col as int;
        lemma_count_at_stored(xs, k);
        lemma_count_at_stored(ys, k);
        assert(count_at(xs, c) == if weighted(doc_freq, num_docs, c) {
            occurrences(query, terms[c])
        } else {
            0
        });
        assert(count_at(ys, c) == if weighted(doc_freq, num_docs, c) {
            occurrences(doc, terms[c])
        } else {
            0
        });
        lemma_cross_product(
            xs[k].count as int,
            ys[k].count as int,
            x.doc_len as int,
            y.doc_len as int,
            a as int,
            b as int,
        );
    }
}

proof fn lemma_scaled_positive(p: nat, q: nat, a: nat, b: nat)
    requires
        a > 0,
        b > 0,
        p * b == q * a,
    ensures
        p > 0 <==> q > 0,
{
    assert(p > 0 <==> q > 0) by (nonlinear_arith)
        requires
            a > 0,
            b > 0,
            p * b == q * a,
    ;
}

proof fn lemma_cross_product(cx: int, cy: int, lx: int, ly: int, a: int, b: int)
    requires
        a > 0,
        b > 0,
        cx * b == cy * a,
        lx * b == ly * a,
    ensures
        cx * ly == cy * lx,
{
    assert(cx * ly == cy * lx) by (nonlinear_arith)
        requires
            a > 0,
            b > 0,
            cx * b == cy * a,
            lx * b == ly * a,
    {
        assert((cx * ly) * a == cx * (lx * b));
        assert((cy * lx) * a == (cx * b) * lx);
        assert(cx * (lx * b) == (cx * b) * lx);
        assert((cx * ly) * a == (cy * lx) * a);
    }
}

/// Picks the winning row: the highest score, the lowest index among equal
/// scores, zero when there are no rows.
pub fn best_match(scores: &Vec<u64>) -> (best: usize)
    ensures
        is_best(scores@, best as int),
        best == best_index(scores@),
{
    if scores.len() == 0 {
        proof {
            lemma_best_unique(scores@, 0, 0);
        }
        return 0;
    }
    let mut best: usize = 0;
    let mut j: usize = 1;
    while j < scores.len()
        invariant
            1 <= j <= scores.len(),
            best < j,
            forall|a: int| 0 <= a < j ==> scores[a] <= scores[best as int],
            forall|a: int| 0 <= a < best ==> scores[a] < scores[best as int],
        decreases scores.len() - j,
    {
        if scores[j] > scores[best] {
            best = j;
        }
        j += 1;
    }
    proof {
        lemma_best_unique(scores@, best as int, best as int);
    }
    best
}

/// Projects a batch of raw query strings into the column space of an
/// index: each query is normalized like a catalog title and counted
/// against the frozen vocabulary, which a query never extends.
pub fn project_queries(normalizer: &Normalizer, index: &TfidfIndex, queries: &Vec<String>) -> (rows:
    Vec<SparseRow>)
    ensures
        rows.len() == queries.len(),
        forall|i: int|
            0 <= i < rows.len() ==> is_row_of(
                (#[trigger] rows[i])@,
                normalized(queries[i]@),
                index@.terms,
                index@.doc_freq,
                index@.num_docs,
            ),
{
    let stemmed = normalizer.normalize_all(queries);
    let rows = compute_tfidf_matrix(
        &stemmed,
        index.vocabulary(),
        index.doc_freq(),
        index.num_docs(),
    );
    proof {
        let texts = queries.deep_view();
        assert(texts.len() == queries.len());
        assert(stemmed.deep_view().len() == stemmed.len());
        assert(corpus_terms(texts).len() == texts.len());
        assert forall|i: int| 0 <= i < rows.len() implies is_row_of(
            (#[trigger] rows[i])@,
            normalized(queries[i]@),
            index@.terms,
            index@.doc_freq,
            index@.num_docs,
        ) by {
            assert(texts[i] == queries[i]@);
            assert(corpus_terms(texts)[i] == normalized(texts[i]));
        }
    }
    rows
}

/// The mapping from query to winning title that a batch produces: queries
/// are entered in order, so a repeated query keeps the entry made last.
pub open spec fn best_matches(
    queries: Seq<Seq<char>>,
    titles: Seq<Seq<char>>,
    scores: Seq<Seq<u64>>,
) -> Map<Seq<char>, Seq<char>>
    decreases queries.len(),
{
    if queries.len() == 0 {
        Map::empty()
    } else {
        best_matches(queries.drop_last(), titles, scores.drop_last()).insert(
            queries.last(),
            titles[best_index(scores.last())],
        )
    }
}

/// One row of scores per query, one score per title.
pub open spec fn scores_fit(scores: Seq<Seq<u64>>, queries: int, titles: int) -> bool {
    &&& scores.len() == queries
    &&& forall|i: int| 0 <= i < scores.len() ==> (#[trigger] scores[i]).len() == titles
}

/// The keys of the mapping are the queries; a query maps to the title that
/// wins its own row of scores, unless the same string is queried again
/// later in the batch.
pub proof fn lemma_best_matches(
    queries: Seq<Seq<char>>,
    titles: Seq<Seq<char>>,
    scores: Seq<Seq<u64>>,
)
    requires
        scores.len() == queries.len(),
    ensures
        forall|q: Seq<char>| best_matches(queries, titles, scores).contains_key(q) <==> queries.contains(q),
        forall|i: int|
            0 <= i < queries.len() && (forall|j: int|
                i < j < queries.len() ==> queries[j] != queries[i]) ==> best_matches(
                queries,
                titles,
                scores,
            )[#[trigger] queries[i]] == titles[best_index(scores[i])],
    decreases queries.len(),
{
    if queries.len() > 0 {
        let n = queries.len() - 1;
        let earlier = queries.drop_last();
        lemma_best_matches(earlier, titles, scores.drop_last());
        let table = best_matches(queries, titles, scores);
        assert forall|q: Seq<char>| table.contains_key(q) <==> queries.contains(q) by {
            if earlier.contains(q) {
                let k = choose|k: int| 0 <= k < earlier.len() && earlier[k] == q;
                assert(queries[k] == q);
            }
            if queries.contains(q) {
                let k = choose|k: int| 0 <= k < queries.len() && queries[k] == q;
                if k < n {
                    assert(earlier[k] == q);
                }
            }
            assert(queries[n] == queries.last());
        }
        assert forall|i: int|
            0 <= i < queries.len() && (forall|j: int|
                i < j < queries.len() ==> queries[j] != queries[i]) implies table[#[trigger] queries[i]]
            == titles[best_index(scores[i])] by {
            if i < n {
                assert(queries[n] != queries[i]);
                assert(earlier[i] == queries[i]);
                assert(scores.drop_last()[i] == scores[i]);
                assert forall|j: int| i < j < earlier.len() implies earlier[j] != earlier[i] by {
                    assert(queries[j] != queries[i]);
                }
            }
        }
    }
}

/// A batch in which the same query string is always given the same row of
/// scores maps every query to the title that wins its row: repeating a
/// query changes nothing.
pub proof fn lemma_repeated_queries_agree(
    queries: Seq<Seq<char>>,
    titles: Seq<Seq<char>>,
    scores: Seq<Seq<u64>>,
)
    requires
        scores.len() == queries.len(),
        forall|i: int, j: int|
            0 <= i < queries.len() && 0 <= j < queries.len() && queries[i] == queries[j]
                ==> scores[i] == scores[j],
    ensures
        forall|i: int|
            0 <= i < queries.len() ==> best_matches(queries, titles, scores)[#[trigger] queries[i]]
                == titles[best_index(scores[i])],
{
    lemma_best_matches(queries, titles, scores);
    assert forall|i: int| 0 <= i < queries.len() implies best_matches(
        queries,
        titles,
        scores,
    )[#[trigger] queries[i]] == titles[best_index(scores[i])] by {
        let last = last_occurrence(queries, i, queries.len() as int);
        lemma_last_occurrence(queries, i, queries.len() as int);
        assert(queries[last] == queries[i]);
        assert(scores[last] == scores[i]);
    }
}

/// The greatest position below `bound` that holds the same query as
/// position `i`.
pub open spec fn last_occurrence(queries: Seq<Seq<char>>, i: int, bound: int) -> int
    decreases bound - i,
{
    if bound <= i + 1 {
        i
    } else if queries[bound - 1] == queries[i] {
        bound - 1
    } else {
        last_occurrence(queries, i, bound - 1)
    }
}

proof fn lemma_last_occurrence(queries: Seq<Seq<char>>, i: int, bound: int)
    requires
        0 <= i < bound <= queries.len(),
    ensures
        i <= last_occurrence(queries, i, bound) < bound,
        queries[last_occurrence(queries, i, bound)] == queries[i],
        forall|j: int|
            last_occurrence(queries, i, bound) < j < bound ==> queries[j] != queries[i],
    decreases bound - i,
{
    if bound > i + 1 && queries[bound - 1] != queries[i] {
        lemma_last_occurrence(queries, i, bound - 1);
    }
}

/// Why a batch could not be matched.
#[derive(Debug, PartialEq, Eq)]
pub enum MatchError {
    /// The batch does not have one row and one row of scores per query, and
    /// one score per title.
    ScoreShape,
    /// The index does not have one row per title, or a query row has a
    /// column outside its vocabulary.
    IndexMismatch,
    /// There are queries to match but no title to match them to.
    EmptyCatalog,
}

/// The result of matching a batch: for each query string its winning title.
pub struct BestMatches {
    table: StringHashMap<String>,
}

impl View for BestMatches {
    type V = Map<Seq<char>, Seq<char>>;

    closed spec fn view(&self) -> Map<Seq<char>, Seq<char>> {
        self.table@.map_values(|title: String| title@)
    }
}

impl BestMatches {
    /// The title matched to `query`, or `None` for a string that was not
    /// among the queries.
    pub fn get(&self, query: &str) -> (title: Option<&String>)
        ensures
            match title {
                Some(t) => self@.contains_key(query@) && t@ == self@[query@],
                None => !self@.contains_key(query@),
            },
    {
        self.table.get(query)
    }

    /// The number of distinct query strings.
    pub fn len(&self) -> (n: usize)
        ensures
            n == self@.len(),
    {
        broadcast use vstd::hash_map::group_hash_map_axioms;

        proof {
            let f = |title: String| title@;
            assert(self.table@.map_values(f).dom() =~= self.table@.dom());
        }
        self.table.len()
    }
}

/// Maps every query to the title of its winning row: `scores[i][j]` is the
/// score key of query `i` against title `j`.
///
/// The batch is refused as a whole when the scores do not fit the batch,
/// or when there are queries but no titles.
pub fn match_scores(
    scraped_titles: Vec<String>,
    standard_titles: &Vec<String>,
    scores: &Vec<Vec<u64>>,
) -> (matched: Result<BestMatches, MatchError>)
    ensures
        match matched {
            Ok(table) => {
                &&& scores_fit(
                    scores.deep_view(),
                    scraped_titles.len() as int,
                    standard_titles.len() as int,
                )
                &&& (standard_titles.len() > 0 || scraped_titles.len() == 0)
                &&& table@ == best_matches(
                    scraped_titles.deep_view(),
                    standard_titles.deep_view(),
                    scores.deep_view(),
                )
            },
            Err(MatchError::ScoreShape) => !scores_fit(
                scores.deep_view(),
                scraped_titles.len() as int,
                standard_titles.len() as int,
            ),
            Err(MatchError::IndexMismatch) => false,
            Err(MatchError::EmptyCatalog) => {
                &&& scores_fit(
                    scores.deep_view(),
                    scraped_titles.len() as int,
                    standard_titles.len() as int,
                )
                &&& standard_titles.len() == 0
                &&& scraped_titles.len() > 0
            },
        },
{
    let ghost queries = scraped_titles.deep_view();
    let ghost titles = standard_titles.deep_view();
    let ghost keys = scores.deep_view();
    if scores.len() != scraped_titles.len() {
        return Err(MatchError::ScoreShape);
    }
    let mut i: usize = 0;
    while i < scores.len()
        invariant
            i <= scores.len(),
            keys == scores.deep_view(),
            forall|r: int| 0 <= r < i ==> (#[trigger] keys[r]).len() == standard_titles.len(),
        decreases scores.len() - i,
    {
        if scores[i].len() != standard_titles.len() {
            assert(keys[i as int].len() != standard_titles.len());
            return Err(MatchError::ScoreShape);
        }
        assert(keys[i as int] == scores[i as int]@);
        i += 1;
    }
    if standard_titles.len() == 0 && scraped_titles.len() > 0 {
        return Err(MatchError::EmptyCatalog);
    }
    let mut table: StringHashMap<String> = StringHashMap::new();
    let ghost view_of = |title: String| title@;
    let mut i: usize = 0;
    assert(queries.take(0) =~= Seq::empty());
    assert(table@.map_values(view_of) =~= Map::empty());
    while i < scraped_titles.len()
        invariant
            i <= scraped_titles.len(),
            scores.len() == scraped_titles.len(),
            queries == scraped_titles.deep_view(),
            titles == standard_titles.deep_view(),
            keys == scores.deep_view(),
            view_of == |title: String| title@,
            standard_titles.len() > 0 || scraped_titles.len() == 0,
            forall|r: int| 0 <= r < keys.len() ==> (#[trigger] keys[r]).len() == standard_titles.len(),
            table@.map_values(view_of) == best_matches(
                queries.take(i as int),
                titles,
                keys.take(i as int),
            ),
        decreases scraped_titles.len() - i,
    {
        let row = &scores[i];
        assert(keys[i as int] == row@);
        let best = best_match(row);
        let ghost before = table@;
        let title = standard_titles[best].clone();
        table.insert(scraped_titles[i].clone(), title);
        proof {
            let grown = queries.take(i as int + 1);
            assert(grown.drop_last() =~= queries.take(i as int));
            assert(keys.take(i as int + 1).drop_last() =~= keys.take(i as int));
            assert(grown.last() == scraped_titles[i as int]@);
            assert(keys.take(i as int + 1).last() == row@);
            assert(titles[best as int] == title@);
            assert(table@.map_values(view_of) =~= before.map_values(view_of).insert(
                scraped_titles[i as int]@,
                title@,
            ));
        }
        i += 1;
    }
    assert(queries.take(i as int) =~= queries);
    assert(keys.take(i as int) =~= keys);
    Ok(BestMatches { table })
}

/// A row weighs nothing when every term it stores occurs in every document
/// of the corpus: the inverse document frequency of such a term is
/// `ln(1) = 0`, so every weight of the row is zero and so is its norm. A
/// row without entries weighs nothing.
pub open spec fn weighs_nothing(m: IndexModel, row: RowModel) -> bool {
    forall|k: int|
        0 <= k < row.entries.len() ==> m.doc_freq[(#[trigger] row.entries[k]).col as int]
            == m.num_docs
}

/// The scores of one query as they count: zero against every title when
/// the query weighs nothing, zero against a title whose row weighs
/// nothing, and the score handed in everywhere else.
pub open spec fn settled_row(m: IndexModel, query: RowModel, scores: Seq<u64>) -> Seq<u64> {
    Seq::new(
        scores.len(),
        |j: int|
            if weighs_nothing(m, query) || weighs_nothing(m, m.rows[j]) {
                0u64
            } else {
                scores[j]
            },
    )
}

/// The scores of a batch as they count, query by query.
pub open spec fn settled(m: IndexModel, queries: Seq<RowModel>, scores: Seq<Seq<u64>>) -> Seq<
    Seq<u64>,
> {
    Seq::new(scores.len(), |i: int| settled_row(m, queries[i], scores[i]))
}

/// Whether scores can be settled against an index: one row of scores per
/// query row, one score per row of the index, and every query row inside
/// the vocabulary.
pub open spec fn settles(m: IndexModel, queries: Seq<RowModel>, scores: Seq<Seq<u64>>) -> bool {
    &&& queries.len() == scores.len()
    &&& forall|i: int| 0 <= i < scores.len() ==> (#[trigger] scores[i]).len() == m.rows.len()
    &&& forall|i: int|
        0 <= i < queries.len() ==> cols_below((#[trigger] queries[i]).entries, m.terms.len() as int)
}

/// A query that weighs nothing has similarity zero to every title, and the
/// first title wins.
pub proof fn lemma_weightless_query_picks_first(m: IndexModel, query: RowModel, scores: Seq<u64>)
    requires
        weighs_nothing(m, query),
    ensures
        forall|j: int| 0 <= j < scores.len() ==> (#[trigger] settled_row(m, query, scores)[j]) == 0,
        best_index(settled_row(m, query, scores)) == 0,
{
    lemma_uniform_scores_pick_first(settled_row(m, query, scores));
}

/// A query none of whose terms the vocabulary holds is matched to the
/// first title, whatever scores are handed in for it: its row has no
/// entry, so it weighs nothing, every score counts as zero, and the lowest
/// row index wins. `docs[j]` are the terms of query `j`.
pub proof fn lemma_unknown_query_matches_first_title(
    m: IndexModel,
    queries: Seq<Seq<char>>,
    titles: Seq<Seq<char>>,
    docs: Seq<Seq<Seq<char>>>,
    rows: Seq<RowModel>,
    scores: Seq<Seq<u64>>,
    i: int,
)
    requires
        queries.len() == scores.len(),
        queries.len() == rows.len(),
        queries.len() == docs.len(),
        0 <= i < queries.len(),
        forall|j: int|
            0 <= j < queries.len() && queries[j] == queries[i] ==> is_row_of(
                #[trigger] rows[j],
                docs[j],
                m.terms,
                m.doc_freq,
                m.num_docs,
            ) && forall|k: int| 0 <= k < docs[j].len() ==> !m.terms.contains(#[trigger] docs[j][k]),
    ensures
        best_matches(queries, titles, settled(m, rows, scores)).contains_key(queries[i]),
        best_matches(queries, titles, settled(m, rows, scores))[queries[i]] == titles[0],
{
    let counted = settled(m, rows, scores);
    lemma_best_matches(queries, titles, counted);
    let last = last_occurrence(queries, i, queries.len() as int);
    lemma_last_occurrence(queries, i, queries.len() as int);
    assert(queries[last] == queries[i]);
    assert(is_row_of(rows[last], docs[last], m.terms, m.doc_freq, m.num_docs));
    lemma_unknown_terms_empty_row(rows[last], docs[last], m.terms, m.doc_freq, m.num_docs);
    assert(weighs_nothing(m, rows[last]));
    lemma_weightless_query_picks_first(m, rows[last], scores[last]);
    assert(counted[last] == settled_row(m, rows[last], scores[last]));
    assert(queries.contains(queries[i]));
}

/// Decides from the counts of the index whether a row weighs nothing;
/// `None` for a row with a column outside the vocabulary.
pub fn row_weighs_nothing(index: &TfidfIndex, row: &SparseRow) -> (r: Option<bool>)
    ensures
        r is Some <==> cols_below(row@.entries, index@.terms.len() as int),
        r matches Some(nothing) ==> nothing == weighs_nothing(index@, row@),
{
    let doc_freq = index.doc_freq();
    let num_docs = index.num_docs();
    let entries = row.entries();
    let n = entries.len();
    if n > 0 && entries[n - 1].col >= doc_freq.len() as u64 {
        assert(!cols_below(row@.entries, index@.terms.len() as int)) by {
            assert(row@.entries[n - 1].col >= index@.terms.len());
        }
        return None;
    }
    assert(cols_below(row@.entries, index@.terms.len() as int)) by {
        assert forall|k: int| 0 <= k < n implies (#[trigger] row@.entries[k]).col
            < index@.terms.len() by {
            if k < n - 1 {
                assert(row@.entries[k].col < row@.entries[n - 1].col);
            }
        }
    }
    let mut k: usize = 0;
    while k < n
        invariant
            k <= n,
            n == entries.len(),
            entries@ == row@.entries,
            doc_freq@ == index@.doc_freq,
            num_docs == index@.num_docs,
            doc_freq.len() == index@.terms.len(),
            cols_below(row@.entries, index@.terms.len() as int),
            forall|a: int|
                0 <= a < k ==> index@.doc_freq[(#[trigger] row@.entries[a]).col as int]
                    == index@.num_docs,
        decreases n - k,
    {
        let entry = entries[k];
        assert(row@.entries[k as int] == entry);
        if doc_freq[entry.col as usize] != num_docs {
            return Some(false);
        }
        k += 1;
    }
    Some(true)
}

/// Settles the scores of a batch against an index: the scores handed in,
/// with zero wherever the query or the title weighs nothing. `None` when
/// the scores and rows do not fit the index.
pub fn settle_scores(index: &TfidfIndex, query_rows: &Vec<SparseRow>, scores: &Vec<Vec<u64>>) -> (r:
    Option<Vec<Vec<u64>>>)
    ensures
        r is Some <==> settles(index@, row_models(query_rows@), scores.deep_view()),
        r matches Some(counted) ==> counted.deep_view() == settled(
            index@,
            row_models(query_rows@),
            scores.deep_view(),
        ),
{
    let ghost m = index@;
    let ghost queries = row_models(query_rows@);
    let ghost keys = scores.deep_view();
    if query_rows.len() != scores.len() {
        return None;
    }
    let doc_rows = index.rows();
    let mut weightless: Vec<bool> = Vec::new();
    let mut j: usize = 0;
    while j < doc_rows.len()
        invariant
            j <= doc_rows.len(),
            m == index@,
            index_wf(m),
            row_models(doc_rows@) == m.rows,
            weightless.len() == j,
            forall|a: int| 0 <= a < j ==> (#[trigger] weightless[a]) == weighs_nothing(m, m.rows[a]),
        decreases doc_rows.len() - j,
    {
        assert(m.rows[j as int] == doc_rows[j as int]@);
        let nothing = match row_weighs_nothing(index, &doc_rows[j]) {
            Some(nothing) => nothing,
            None => {
                assert(cols_below(m.rows[j as int].entries, m.terms.len() as int));
                return None;
            },
        };
        weightless.push(nothing);
        j += 1;
    }
    let mut counted: Vec<Vec<u64>> = Vec::new();
    let mut i: usize = 0;
    while i < scores.len()
        invariant
            i <= scores.len(),
            query_rows.len() == scores.len(),
            m == index@,
            queries == row_models(query_rows@),
            keys == scores.deep_view(),
            row_models(doc_rows@) == m.rows,
            weightless.len() == m.rows.len(),
            forall|a: int|
                0 <= a < weightless.len() ==> (#[trigger] weightless[a]) == weighs_nothing(
                    m,
                    m.rows[a],
                ),
            counted.len() == i,
            forall|r: int| 0 <= r < i ==> (#[trigger] keys[r]).len() == m.rows.len(),
            forall|r: int|
                0 <= r < i ==> cols_below((#[trigger] queries[r]).entries, m.terms.len() as int),
            forall|r: int| 0 <= r < i ==> (#[trigger] counted[r])@ == settled_row(m, queries[r], keys[r]),
        decreases scores.len() - i,
    {
        let given = &scores[i];
        assert(keys[i as int] == given@);
        assert(queries[i as int] == query_rows[i as int]@);
        if given.len() != weightless.len() {
            assert(keys[i as int].len() != m.rows.len());
            return None;
        }
        let query_nothing = match row_weighs_nothing(index, &query_rows[i]) {
            Some(nothing) => nothing,
            None => {
                assert(!cols_below(queries[i as int].entries, m.terms.len() as int));
                return None;
            },
        };
        let mut row: Vec<u64> = Vec::new();
        let mut j: usize = 0;
        while j < given.len()
            invariant
                j <= given.len(),
                given.len() == weightless.len(),
                weightless.len() == m.rows.len(),
                i < query_rows.len(),
                queries[i as int] == query_rows[i as int]@,
                query_nothing == weighs_nothing(m, queries[i as int]),
                forall|a: int|
                    0 <= a < weightless.len() ==> (#[trigger] weightless[a]) == weighs_nothing(
                        m,
                        m.rows[a],
                    ),
                row.len() == j,
                forall|a: int|
                    0 <= a < j ==> (#[trigger] row[a]) == settled_row(m, queries[i as int], given@)[a],
            decreases given.len() - j,
        {
            let key = if query_nothing || weightless[j] {
                0
            } else {
                given[j]
            };
            row.push(key);
            j += 1;
        }
        assert(row@ =~= settled_row(m, queries[i as int], keys[i as int]));
        counted.push(row);
        i += 1;
    }
    assert(counted.deep_view() =~= settled(m, queries, keys)) by {
        assert(queries.len() == keys.len());
        assert forall|r: int| 0 <= r < counted.len() implies counted.deep_view()[r] == settled(
            m,
            queries,
            keys,
        )[r] by {
            assert(counted.deep_view()[r] =~= counted[r]@);
        }
    }
    Some(counted)
}

/// One row and one row of scores per query, and one score per title.
pub open spec fn batch_fits(scores: Seq<Seq<u64>>, rows: int, queries: int, titles: int) -> bool {
    rows == queries && scores_fit(scores, queries, titles)
}

/// The rows belong to the index and the index to the titles: the index has
/// one row per title, and every query row lies inside its vocabulary.
pub open spec fn rows_belong(m: IndexModel, queries: Seq<RowModel>, titles: int) -> bool {
    &&& m.rows.len() == titles
    &&& forall|i: int|
        0 <= i < queries.len() ==> cols_below((#[trigger] queries[i]).entries, m.terms.len() as int)
}

/// Whether there is one row of scores per query and one score per title.
fn scores_fit_batch(scores: &Vec<Vec<u64>>, queries: usize, titles: usize) -> (fits: bool)
    ensures
        fits == scores_fit(scores.deep_view(), queries as int, titles as int),
{
    if scores.len() != queries {
        return false;
    }
    let mut i: usize = 0;
    while i < scores.len()
        invariant
            i <= scores.len(),
            scores.len() == queries,
            forall|r: int| 0 <= r < i ==> (#[trigger] scores.deep_view()[r]).len() == titles,
        decreases scores.len() - i,
    {
        if scores[i].len() != titles {
            assert(scores.deep_view()[i as int].len() != titles);
            return false;
        }
        assert(scores.deep_view()[i as int] == scores[i as int]@);
        i += 1;
    }
    true
}

/// Matches a batch against the catalog. `query_rows[i]` is the row of
/// query `i` in the column space of `index`, `scores[i][j]` the score key
/// of query `i` against title `j`, and row `j` of the index belongs to
/// title `j`. Every query is mapped to the title that wins its scores as
/// they count: a query that weighs nothing, such as one whose terms are
/// all unknown, always falls to the first title.
///
/// The batch is refused as a whole when its parts do not fit each other,
/// when the index does not belong to the titles or a row not to the index,
/// or when there are queries but no titles.
pub fn tame_logic(
    index: &TfidfIndex,
    scraped_titles: Vec<String>,
    standard_titles: &Vec<String>,
    query_rows: &Vec<SparseRow>,
    scores: &Vec<Vec<u64>>,
) -> (matched: Result<BestMatches, MatchError>)
    ensures
        matched is Ok <==> batch_fits(
            scores.deep_view(),
            query_rows.len() as int,
            scraped_titles.len() as int,
            standard_titles.len() as int,
        ) && rows_belong(index@, row_models(query_rows@), standard_titles.len() as int) && (
        standard_titles.len() > 0 || scraped_titles.len() == 0),
        match matched {
            Ok(table) => {
                &&& batch_fits(
                    scores.deep_view(),
                    query_rows.len() as int,
                    scraped_titles.len() as int,
                    standard_titles.len() as int,
                )
                &&& rows_belong(index@, row_models(query_rows@), standard_titles.len() as int)
                &&& (standard_titles.len() > 0 || scraped_titles.len() == 0)
                &&& table@ == best_matches(
                    scraped_titles.deep_view(),
                    standard_titles.deep_view(),
                    settled(index@, row_models(query_rows@), scores.deep_view()),
                )
            },
            Err(MatchError::ScoreShape) => !batch_fits(
                scores.deep_view(),
                query_rows.len() as int,
                scraped_titles.len() as int,
                standard_titles.len() as int,
            ),
            Err(MatchError::IndexMismatch) => {
                &&& batch_fits(
                    scores.deep_view(),
                    query_rows.len() as int,
                    scraped_titles.len() as int,
                    standard_titles.len() as int,
                )
                &&& !rows_belong(index@, row_models(query_rows@), standard_titles.len() as int)
            },
            Err(MatchError::EmptyCatalog) => {
                &&& batch_fits(
                    scores.deep_view(),
                    query_rows.len() as int,
                    scraped_titles.len() as int,
                    standard_titles.len() as int,
                )
                &&& rows_belong(index@, row_models(query_rows@), standard_titles.len() as int)
                &&& standard_titles.len() == 0
                &&& scraped_titles.len() > 0
            },
        },
{
    let ghost m = index@;
    let ghost queries = row_models(query_rows@);
    let ghost keys = scores.deep_view();
    if query_rows.len() != scraped_titles.len() || !scores_fit_batch(
        scores,
        scraped_titles.len(),
        standard_titles.len(),
    ) {
        return Err(MatchError::ScoreShape);
    }
    if index.rows().len() != standard_titles.len() {
        return Err(MatchError::IndexMismatch);
    }
    let counted = match settle_scores(index, query_rows, scores) {
        Some(counted) => counted,
        None => {
            return Err(MatchError::IndexMismatch);
        },
    };
    assert(scores_fit(
        counted.deep_view(),
        scraped_titles.len() as int,
        standard_titles.len() as int,
    )) by {
        assert forall|i: int| 0 <= i < counted.deep_view().len() implies (
        #[trigger] counted.deep_view()[i]).len() == standard_titles.len() by {
            assert(keys[i].len() == standard_titles.len());
        }
    }
    match_scores(scraped_titles, standard_titles, &counted)
}

} // verus!
