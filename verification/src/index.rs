//! The index: vocabulary, document frequencies, document count and the
//! sparse matrix of a corpus, built in one pass and immutable after.

use crate::matrix::{
    cols_below, count_at, count_matrix, counts_terms, drop_weightless, entries_wf, has_col,
    is_row_of, keeps_weighted, lemma_count_at_stored, lemma_drop_last_count, lemma_kept_is_row,
    lemma_occurrences, occurrences, row_wf, sorted_by_col, weighted, Entry, RowModel, SparseRow,
};
use crate::text::{corpus_terms, Normalizer};
use crate::vocab::{lemma_vocabulary_of, occurs_in_corpus, vocabulary_of, Vocabulary};
use vstd::prelude::*;

verus! {

/// The mathematical content of an index.
pub struct IndexModel {
    pub terms: Seq<Seq<char>>,
    pub doc_freq: Seq<u64>,
    pub num_docs: u64,
    pub rows: Seq<RowModel>,
}

/// The number of documents of the corpus that contain `term` at least once.
pub open spec fn doc_frequency(docs: Seq<Seq<Seq<char>>>, term: Seq<char>) -> nat
    decreases docs.len(),
{
    if docs.len() == 0 {
        0
    } else {
        doc_frequency(docs.drop_last(), term) + if docs.last().contains(term) {
            1nat
        } else {
            0nat
        }
    }
}

/// The number of rows that store an entry for column `col`.
pub open spec fn rows_with_col(rows: Seq<RowModel>, col: int) -> nat
    decreases rows.len(),
{
    if rows.len() == 0 {
        0
    } else {
        rows_with_col(rows.drop_last(), col) + if has_col(rows.last().entries, col) {
            1nat
        } else {
            0nat
        }
    }
}

/// The contents of a vector of rows.
pub open spec fn row_models(rows: Seq<SparseRow>) -> Seq<RowModel> {
    rows.map_values(|row: SparseRow| row@)
}

/// The number of rows that hold a cell in column `j` of a consistent
/// index: as many as the document frequency says where the column carries
/// weight, and none where the term occurs in every document.
pub open spec fn stored_in(m: IndexModel, j: int) -> int {
    if m.doc_freq[j] < m.num_docs {
        m.doc_freq[j] as int
    } else {
        0
    }
}

/// Internal consistency of an index: distinct terms, one frequency per
/// term, between one and the document count, one well-formed row per
/// document with columns inside the vocabulary, and in every column as
/// many stored cells as the frequency asks for.
pub open spec fn index_wf(m: IndexModel) -> bool {
    &&& m.terms.no_duplicates()
    &&& m.doc_freq.len() == m.terms.len()
    &&& m.rows.len() == m.num_docs
    &&& forall|i: int|
        0 <= i < m.rows.len() ==> row_wf(#[trigger] m.rows[i]) && cols_below(
            m.rows[i].entries,
            m.terms.len() as int,
        )
    &&& forall|j: int|
        0 <= j < m.terms.len() ==> 1 <= (#[trigger] m.doc_freq[j]) <= m.num_docs && rows_with_col(
            m.rows,
            j,
        ) == stored_in(m, j)
}

/// `m` is the index of the corpus `docs`: the vocabulary in first-seen
/// order, the document count, the row of every document, and for every
/// term the number of documents that contain it.
pub open spec fn is_index_of(m: IndexModel, docs: Seq<Seq<Seq<char>>>) -> bool {
    &&& m.terms == vocabulary_of(docs)
    &&& m.num_docs == docs.len()
    &&& m.rows.len() == docs.len()
    &&& forall|i: int|
        0 <= i < docs.len() ==> is_row_of(
            #[trigger] m.rows[i],
            docs[i],
            m.terms,
            m.doc_freq,
            m.num_docs,
        )
    &&& m.doc_freq.len() == m.terms.len()
    &&& forall|j: int|
        0 <= j < m.terms.len() ==> (#[trigger] m.doc_freq[j]) == doc_frequency(docs, m.terms[j])
}

/// No more rows store a column than there are rows.
pub proof fn lemma_rows_with_col_bound(rows: Seq<RowModel>, col: int)
    ensures
        rows_with_col(rows, col) <= rows.len(),
    decreases rows.len(),
{
    if rows.len() > 0 {
        lemma_rows_with_col_bound(rows.drop_last(), col);
    }
}

/// A row that counts the terms of a document stores a column exactly when
/// the document contains that column's term.
pub proof fn lemma_count_row_stores_contained(
    row: RowModel,
    doc: Seq<Seq<char>>,
    terms: Seq<Seq<char>>,
    j: int,
)
    requires
        counts_terms(row, doc, terms),
        0 <= j < terms.len(),
    ensures
        has_col(row.entries, j) <==> doc.contains(terms[j]),
{
    lemma_occurrences(doc, terms[j]);
    assert(count_at(row.entries, j) == occurrences(doc, terms[j]));
    if has_col(row.entries, j) {
        let k = choose|k: int| 0 <= k < row.entries.len() && #[trigger] row.entries[k].col == j;
        lemma_count_at_stored(row.entries, k);
        assert(row.entries[k].count >= 1);
    }
}

/// Counted over rows that count the terms of a corpus, the rows that store
/// a column are the documents that contain its term.
pub proof fn lemma_doc_freq_of_counts(
    rows: Seq<RowModel>,
    docs: Seq<Seq<Seq<char>>>,
    terms: Seq<Seq<char>>,
    j: int,
)
    requires
        rows.len() == docs.len(),
        forall|i: int| 0 <= i < docs.len() ==> counts_terms(#[trigger] rows[i], docs[i], terms),
        0 <= j < terms.len(),
    ensures
        rows_with_col(rows, j) == doc_frequency(docs, terms[j]),
    decreases rows.len(),
{
    if rows.len() > 0 {
        let n = rows.len() - 1;
        assert forall|i: int| 0 <= i < n implies counts_terms(
            #[trigger] rows.drop_last()[i],
            docs.drop_last()[i],
            terms,
        ) by {
            assert(counts_terms(rows[i], docs[i], terms));
        }
        lemma_doc_freq_of_counts(rows.drop_last(), docs.drop_last(), terms, j);
        assert(counts_terms(rows[n], docs[n], terms));
        lemma_count_row_stores_contained(rows.last(), docs.last(), terms, j);
    }
}

/// A matrix row holds a cell in a column exactly when the column carries
/// weight and the document contains the column's term.
pub proof fn lemma_row_stores_weighted(
    row: RowModel,
    doc: Seq<Seq<char>>,
    terms: Seq<Seq<char>>,
    doc_freq: Seq<u64>,
    num_docs: u64,
    j: int,
)
    requires
        is_row_of(row, doc, terms, doc_freq, num_docs),
        0 <= j < terms.len(),
    ensures
        has_col(row.entries, j) <==> weighted(doc_freq, num_docs, j) && doc.contains(terms[j]),
{
    lemma_occurrences(doc, terms[j]);
    assert(count_at(row.entries, j) == if weighted(doc_freq, num_docs, j) {
        occurrences(doc, terms[j])
    } else {
        0
    });
    if has_col(row.entries, j) {
        let k = choose|k: int| 0 <= k < row.entries.len() && #[trigger] row.entries[k].col == j;
        lemma_count_at_stored(row.entries, k);
        assert(row.entries[k].count >= 1);
    }
}

/// Counted over the rows of the matrix of a corpus, a column that carries
/// weight is stored in as many rows as documents contain its term, and a
/// column that carries none is stored in no row.
pub proof fn lemma_cells_of_rows(
    rows: Seq<RowModel>,
    docs: Seq<Seq<Seq<char>>>,
    terms: Seq<Seq<char>>,
    doc_freq: Seq<u64>,
    num_docs: u64,
    j: int,
)
    requires
        rows.len() == docs.len(),
        forall|i: int|
            0 <= i < docs.len() ==> is_row_of(#[trigger] rows[i], docs[i], terms, doc_freq, num_docs),
        0 <= j < terms.len(),
    ensures
        rows_with_col(rows, j) == if weighted(doc_freq, num_docs, j) {
            doc_frequency(docs, terms[j])
        } else {
            0
        },
    decreases rows.len(),
{
    if rows.len() > 0 {
        let n = rows.len() - 1;
        assert forall|i: int| 0 <= i < n implies is_row_of(
            #[trigger] rows.drop_last()[i],
            docs.drop_last()[i],
            terms,
            doc_freq,
            num_docs,
        ) by {
            assert(is_row_of(rows[i], docs[i], terms, doc_freq, num_docs));
        }
        lemma_cells_of_rows(rows.drop_last(), docs.drop_last(), terms, doc_freq, num_docs, j);
        assert(is_row_of(rows[n], docs[n], terms, doc_freq, num_docs));
        lemma_row_stores_weighted(rows.last(), docs.last(), terms, doc_freq, num_docs, j);
    }
}

/// Every term of the vocabulary is contained in at least one document and
/// in no more documents than the corpus has.
pub proof fn lemma_doc_frequency_bounds(docs: Seq<Seq<Seq<char>>>, term: Seq<char>)
    ensures
        doc_frequency(docs, term) <= docs.len(),
        vocabulary_of(docs).contains(term) <==> doc_frequency(docs, term) >= 1,
    decreases docs.len(),
{
    lemma_vocabulary_of(docs);
    if docs.len() > 0 {
        let earlier = docs.drop_last();
        lemma_doc_frequency_bounds(earlier, term);
        lemma_vocabulary_of(earlier);
        if occurs_in_corpus(docs, term) {
            let i = choose|i: int| 0 <= i < docs.len() && (#[trigger] docs[i]).contains(term);
            if i < docs.len() - 1 {
                assert(earlier[i].contains(term));
                assert(occurs_in_corpus(earlier, term));
            }
        }
        if occurs_in_corpus(earlier, term) {
            let i = choose|i: int| 0 <= i < earlier.len() && (#[trigger] earlier[i]).contains(term);
            assert(docs[i].contains(term));
        }
        if docs.last().contains(term) {
            assert(docs[docs.len() - 1].contains(term));
        }
    }
}

/// Counts, for every column below `width`, the rows that store it.
pub fn count_doc_freq(rows: &Vec<SparseRow>, width: usize) -> (doc_freq: Vec<u64>)
    ensures
        doc_freq.len() == width,
        forall|j: int|
            0 <= j < width ==> (#[trigger] doc_freq[j]) == rows_with_col(row_models(rows@), j),
{
    let ghost models = row_models(rows@);
    let mut doc_freq: Vec<u64> = Vec::new();
    let mut j: usize = 0;
    while j < width
        invariant
            j <= width,
            doc_freq.len() == j,
            forall|c: int| 0 <= c < j ==> (#[trigger] doc_freq[c]) == 0,
        decreases width - j,
    {
        doc_freq.push(0);
        j += 1;
    }
    let mut i: usize = 0;
    assert(models.take(0) =~= Seq::empty());
    while i < rows.len()
        invariant
            i <= rows.len(),
            models == row_models(rows@),
            doc_freq.len() == width,
            forall|c: int|
                0 <= c < width ==> (#[trigger] doc_freq[c]) == rows_with_col(models.take(i as int), c),
        decreases rows.len() - i,
    {
        let entries = rows[i].entries();
        let ghost done = models.take(i as int);
        let ghost base = doc_freq@;
        assert(models[i as int].entries == entries@);
        let mut k: usize = 0;
        assert forall|c: int| !has_col(entries@.take(0), c) by {}
        while k < entries.len()
            invariant
                k <= entries.len(),
                i < rows.len(),
                done.len() == i,
                sorted_by_col(entries@),
                doc_freq.len() == width,
                base.len() == width,
                forall|c: int| 0 <= c < width ==> (#[trigger] base[c]) == rows_with_col(done, c),
                forall|c: int|
                    0 <= c < width ==> (#[trigger] doc_freq[c]) == base[c] + if has_col(
                        entries@.take(k as int),
                        c,
                    ) {
                        1nat
                    } else {
                        0nat
                    },
            decreases entries.len() - k,
        {
            let entry = entries[k];
            let ghost seen = entries@.take(k as int);
            let ghost next = entries@.take(k as int + 1);
            proof {
                assert(!has_col(seen, entry.col as int)) by {
                    if has_col(seen, entry.col as int) {
                        let a = choose|a: int|
                            0 <= a < seen.len() && #[trigger] seen[a].col == entry.col as int;
                        assert(entries@[a].col < entries@[k as int].col);
                    }
                }
                assert(has_col(next, entry.col as int)) by {
                    assert(next[k as int].col == entry.col);
                }
                assert forall|c: int| c != entry.col implies (has_col(next, c) <==> has_col(
                    seen,
                    c,
                )) by {
                    if has_col(next, c) {
                        let a = choose|a: int| 0 <= a < next.len() && #[trigger] next[a].col == c;
                        assert(seen[a].col == c);
                    }
                    if has_col(seen, c) {
                        let a = choose|a: int| 0 <= a < seen.len() && #[trigger] seen[a].col == c;
                        assert(next[a].col == c);
                    }
                }
            }
            if entry.col < width as u64 {
                let c = entry.col as usize;
                proof {
                    lemma_rows_with_col_bound(done, c as int);
                }
                let bumped = doc_freq[c] + 1;
                doc_freq[c] = bumped;
            }
            k += 1;
        }
        proof {
            assert(entries@.take(k as int) =~= entries@);
            let grown = models.take(i as int + 1);
            assert(grown.drop_last() =~= done);
            assert(grown.last() == models[i as int]);
        }
        i += 1;
    }
    assert(models.take(i as int) =~= models);
    doc_freq
}

/// In a consistent index every document frequency lies between one and the
/// document count.
pub proof fn lemma_doc_freq_bounds(m: IndexModel, j: int)
    requires
        index_wf(m),
        0 <= j < m.terms.len(),
    ensures
        1 <= m.doc_freq[j] <= m.num_docs,
{
}

/// A column that some row stores is stored in at least one row.
pub proof fn lemma_stored_column_counts(rows: Seq<RowModel>, i: int, col: int)
    requires
        0 <= i < rows.len(),
        has_col(rows[i].entries, col),
    ensures
        rows_with_col(rows, col) >= 1,
    decreases rows.len(),
{
    if i < rows.len() - 1 {
        assert(rows.drop_last()[i] == rows[i]);
        lemma_stored_column_counts(rows.drop_last(), i, col);
    } else {
        assert(rows.last() == rows[i]);
    }
}

/// In a consistent index no zero weight is stored: every cell of every row
/// stands in a column whose term is missing from at least one document, so
/// that its inverse document frequency is above zero.
pub proof fn lemma_stored_cells_carry_weight(m: IndexModel, i: int, k: int)
    requires
        index_wf(m),
        0 <= i < m.rows.len(),
        0 <= k < m.rows[i].entries.len(),
    ensures
        m.rows[i].entries[k].col < m.terms.len(),
        1 <= m.doc_freq[m.rows[i].entries[k].col as int] < m.num_docs,
        1 <= m.rows[i].entries[k].count <= m.rows[i].doc_len,
{
    let row = m.rows[i];
    let col = row.entries[k].col as int;
    assert(row_wf(row) && cols_below(row.entries, m.terms.len() as int));
    assert(row.entries[k].col < m.terms.len());
    lemma_count_at_stored(row.entries, k);
    lemma_stored_column_counts(m.rows, i, col);
    assert(rows_with_col(m.rows, col) == stored_in(m, col));
}

/// What the weight of one stored matrix cell is made of. The cell stands
/// for `tf * idf` with `tf = count / doc_len` and
/// `idf = ln(num_docs / doc_freq)`.
#[derive(Clone, Copy, Debug, PartialEq, Eq)]
pub struct WeightParts {
    /// The column of the cell: the index of its term.
    pub col: u64,
    /// How often the term occurs in the document.
    pub count: u64,
    /// The number of tokens of the document.
    pub doc_len: u64,
    /// The number of documents of the corpus.
    pub num_docs: u64,
    /// The number of documents that contain the term.
    pub doc_freq: u64,
}

/// The weight parts of every stored cell of `row`, in column order, taken
/// against the document count and frequencies of `m`.
pub open spec fn weights_of(m: IndexModel, row: RowModel) -> Seq<WeightParts> {
    Seq::new(
        row.entries.len(),
        |k: int|
            WeightParts {
                col: row.entries[k].col,
                count: row.entries[k].count,
                doc_len: row.doc_len,
                num_docs: m.num_docs,
                doc_freq: m.doc_freq[row.entries[k].col as int],
            },
    )
}

/// A built or loaded index. Immutable; shared by reference while matching.
pub struct TfidfIndex {
    vocabulary: Vocabulary,
    doc_freq: Vec<u64>,
    num_docs: u64,
    rows: Vec<SparseRow>,
}

impl View for TfidfIndex {
    type V = IndexModel;

    closed spec fn view(&self) -> IndexModel {
        IndexModel {
            terms: self.vocabulary@,
            doc_freq: self.doc_freq@,
            num_docs: self.num_docs,
            rows: row_models(self.rows@),
        }
    }
}

impl TfidfIndex {
    #[verifier::type_invariant]
    spec fn inv(self) -> bool {
        index_wf(self@)
    }

    /// The frozen vocabulary.
    pub fn vocabulary(&self) -> (vocabulary: &Vocabulary)
        ensures
            vocabulary@ == self@.terms,
            index_wf(self@),
    {
        proof {
            use_type_invariant(self);
        }
        &self.vocabulary
    }

    /// The document frequency of every term, by term index.
    pub fn doc_freq(&self) -> (doc_freq: &Vec<u64>)
        ensures
            doc_freq@ == self@.doc_freq,
            index_wf(self@),
    {
        proof {
            use_type_invariant(self);
        }
        &self.doc_freq
    }

    /// The number of documents the index was built from.
    pub fn num_docs(&self) -> (n: u64)
        ensures
            n == self@.num_docs,
    {
        self.num_docs
    }

    /// The rows of the count matrix, one per document.
    pub fn rows(&self) -> (rows: &Vec<SparseRow>)
        ensures
            row_models(rows@) == self@.rows,
            index_wf(self@),
    {
        proof {
            use_type_invariant(self);
        }
        &self.rows
    }

    /// The weight parts of every stored cell of `row`, or `None` for a row
    /// with a column outside the vocabulary. In every cell the count lies
    /// between one and the document length, and the document frequency
    /// between one and the document count, so the term frequency is a
    /// fraction in `(0, 1]` and the inverse document frequency is the
    /// logarithm of a ratio that is at least one.
    pub fn term_weights(&self, row: &SparseRow) -> (weights: Option<Vec<WeightParts>>)
        ensures
            weights is Some <==> cols_below(row@.entries, self@.terms.len() as int),
            weights matches Some(w) ==> {
                &&& w@ == weights_of(self@, row@)
                &&& forall|k: int|
                    0 <= k < w.len() ==> 1 <= (#[trigger] w[k]).count <= w[k].doc_len && 1
                        <= w[k].doc_freq <= w[k].num_docs
            },
    {
        proof {
            use_type_invariant(self);
        }
        let entries = row.entries();
        let doc_len = row.doc_len();
        let mut weights: Vec<WeightParts> = Vec::new();
        let mut k: usize = 0;
        while k < entries.len()
            invariant
                k <= entries.len(),
                index_wf(self@),
                row_wf(row@),
                entries@ == row@.entries,
                doc_len == row@.doc_len,
                self.doc_freq@ == self@.doc_freq,
                self.num_docs == self@.num_docs,
                weights.len() == k,
                cols_below(entries@.take(k as int), self@.terms.len() as int),
                forall|a: int| 0 <= a < k ==> (#[trigger] weights[a]) == weights_of(self@, row@)[a],
                forall|a: int|
                    0 <= a < k ==> 1 <= (#[trigger] weights[a]).count <= weights[a].doc_len && 1
                        <= weights[a].doc_freq <= weights[a].num_docs,
            decreases entries.len() - k,
        {
            let entry = entries[k];
            if entry.col >= self.doc_freq.len() as u64 {
                assert(!cols_below(row@.entries, self@.terms.len() as int)) by {
                    assert(row@.entries[k as int].col >= self@.terms.len());
                }
                return None;
            }
            proof {
                lemma_doc_freq_bounds(self@, entry.col as int);
                assert(row@.entries[k as int] == entry);
                let next = entries@.take(k as int + 1);
                let seen = entries@.take(k as int);
                assert forall|a: int| 0 <= a < next.len() implies (#[trigger] next[a]).col
                    < self@.terms.len() by {
                    if a < k {
                        assert(seen[a] == next[a]);
                    }
                }
            }
            weights.push(
                WeightParts {
                    col: entry.col,
                    count: entry.count,
                    doc_len,
                    num_docs: self.num_docs,
                    doc_freq: self.doc_freq[entry.col as usize],
                },
            );
            k += 1;
        }
        assert(entries@.take(k as int) =~= entries@);
        assert(weights@ =~= weights_of(self@, row@));
        Some(weights)
    }

    /// Assembles an index from its four parts when they are consistent
    /// with each other; `None` otherwise.
    pub fn from_parts(
        vocabulary: Vocabulary,
        doc_freq: Vec<u64>,
        num_docs: u64,
        rows: Vec<SparseRow>,
    ) -> (index: Option<TfidfIndex>)
        ensures
            index is Some <==> index_wf(
                IndexModel {
                    terms: vocabulary@,
                    doc_freq: doc_freq@,
                    num_docs,
                    rows: row_models(rows@),
                },
            ),
            index matches Some(built) ==> built@ == (IndexModel {
                terms: vocabulary@,
                doc_freq: doc_freq@,
                num_docs,
                rows: row_models(rows@),
            }),
    {
        let ghost m = IndexModel {
            terms: vocabulary@,
            doc_freq: doc_freq@,
            num_docs,
            rows: row_models(rows@),
        };
        let width = vocabulary.len();
        if doc_freq.len() != width || rows.len() as u64 != num_docs {
            return None;
        }
        let mut i: usize = 0;
        while i < rows.len()
            invariant
                i <= rows.len(),
                m == (IndexModel {
                    terms: vocabulary@,
                    doc_freq: doc_freq@,
                    num_docs,
                    rows: row_models(rows@),
                }),
                m.terms.len() == width,
                forall|r: int|
                    0 <= r < i ==> row_wf(#[trigger] m.rows[r]) && cols_below(
                        m.rows[r].entries,
                        width as int,
                    ),
            decreases rows.len() - i,
        {
            let entries = rows[i].entries();
            assert(m.rows[i as int] == rows[i as int]@);
            if entries.len() > 0 && entries[entries.len() - 1].col >= width as u64 {
                proof {
                    let es = m.rows[i as int].entries;
                    assert(es == entries@);
                    assert(es[es.len() - 1].col >= width);
                    assert(!cols_below(es, width as int));
                }
                return None;
            }
            assert(cols_below(m.rows[i as int].entries, width as int)) by {
                let es = m.rows[i as int].entries;
                assert forall|k: int| 0 <= k < es.len() implies (#[trigger] es[k]).col < width by {
                    if k < es.len() - 1 {
                        assert(es[k].col < es[es.len() - 1].col);
                    }
                }
            }
            i += 1;
        }
        let counted = count_doc_freq(&rows, width);
        let mut j: usize = 0;
        while j < width
            invariant
                j <= width,
                counted.len() == width,
                doc_freq.len() == width,
                m == (IndexModel {
                    terms: vocabulary@,
                    doc_freq: doc_freq@,
                    num_docs,
                    rows: row_models(rows@),
                }),
                m.terms.len() == width,
                m.terms.no_duplicates(),
                m.rows.len() == num_docs,
                forall|r: int|
                    0 <= r < m.rows.len() ==> row_wf(#[trigger] m.rows[r]) && cols_below(
                        m.rows[r].entries,
                        width as int,
                    ),
                forall|c: int|
                    0 <= c < width ==> (#[trigger] counted[c]) == rows_with_col(m.rows, c),
                forall|c: int|
                    0 <= c < j ==> 1 <= (#[trigger] m.doc_freq[c]) <= m.num_docs && rows_with_col(
                        m.rows,
                        c,
                    ) == stored_in(m, c),
            decreases width - j,
        {
            let listed = doc_freq[j];
            let asked = if listed < num_docs {
                listed
            } else {
                0
            };
            if listed < 1 || listed > num_docs || counted[j] != asked {
                assert(!(1 <= m.doc_freq[j as int] <= m.num_docs && rows_with_col(
                    m.rows,
                    j as int,
                ) == stored_in(m, j as int)));
                return None;
            }
            j += 1;
        }
        Some(TfidfIndex { vocabulary, doc_freq, num_docs, rows })
    }
}

/// Builds the index of a corpus of normalized documents: vocabulary in
/// first-seen order, the document frequency of every term, and one matrix
/// row per document.
pub fn build_from_terms(stemmed_docs: &Vec<Vec<String>>) -> (index: TfidfIndex)
    ensures
        is_index_of(index@, stemmed_docs.deep_view()),
{
    let ghost docs = stemmed_docs.deep_view();
    let vocabulary = Vocabulary::from_documents(stemmed_docs);
    let counts = count_matrix(stemmed_docs, &vocabulary);
    let doc_freq = count_doc_freq(&counts, vocabulary.len());
    let num_docs = stemmed_docs.len() as u64;
    let ghost terms = vocabulary@;
    proof {
        lemma_vocabulary_of(docs);
        assert forall|j: int| 0 <= j < terms.len() implies (#[trigger] doc_freq@[j])
            == doc_frequency(docs, terms[j]) && 1 <= doc_freq@[j] <= num_docs by {
            lemma_doc_freq_of_counts(row_models(counts@), docs, terms, j);
            lemma_doc_frequency_bounds(docs, terms[j]);
            assert(terms.contains(terms[j]));
        }
    }
    let mut rows: Vec<SparseRow> = Vec::new();
    let mut i: usize = 0;
    while i < counts.len()
        invariant
            i <= counts.len(),
            counts.len() == stemmed_docs.len(),
            docs == stemmed_docs.deep_view(),
            terms == vocabulary@,
            forall|r: int|
                0 <= r < counts.len() ==> counts_terms((#[trigger] counts[r])@, docs[r], terms),
            rows.len() == i,
            forall|r: int|
                0 <= r < i ==> is_row_of((#[trigger] rows[r])@, docs[r], terms, doc_freq@, num_docs),
        decreases counts.len() - i,
    {
        let kept = drop_weightless(&counts[i], &doc_freq, num_docs);
        proof {
            lemma_kept_is_row(kept@, counts[i as int]@, docs[i as int], terms, doc_freq@, num_docs);
        }
        rows.push(kept);
        i += 1;
    }
    proof {
        let m = IndexModel { terms, doc_freq: doc_freq@, num_docs, rows: row_models(rows@) };
        assert(is_index_of(m, docs));
        lemma_index_of_is_wf(m, docs);
    }
    TfidfIndex { vocabulary, doc_freq, num_docs, rows }
}

/// Two sorted rows without zeros that hold the same count in every column
/// store the same entries.
pub proof fn lemma_entries_determined(x: Seq<Entry>, y: Seq<Entry>)
    requires
        entries_wf(x),
        entries_wf(y),
        forall|c: int| count_at(x, c) == count_at(y, c),
    ensures
        x == y,
    decreases x.len(),
{
    if x.len() == 0 {
        if y.len() > 0 {
            lemma_count_at_stored(y, 0);
            assert(!has_col(x, y[0].col as int));
            assert(count_at(x, y[0].col as int) == count_at(y, y[0].col as int));
        }
        assert(x =~= y);
    } else {
        let lx = x.last();
        lemma_count_at_stored(x, x.len() - 1);
        assert(count_at(x, lx.col as int) == count_at(y, lx.col as int));
        assert(has_col(y, lx.col as int));
        let ky = choose|k: int| 0 <= k < y.len() && #[trigger] y[k].col == lx.col as int;
        let ly = y.last();
        lemma_count_at_stored(y, y.len() - 1);
        assert(count_at(x, ly.col as int) == count_at(y, ly.col as int));
        assert(has_col(x, ly.col as int));
        let kx = choose|k: int| 0 <= k < x.len() && #[trigger] x[k].col == ly.col as int;
        if ky < y.len() - 1 {
            assert(y[ky].col < y[y.len() - 1].col);
        }
        if kx < x.len() - 1 {
            assert(x[kx].col < x[x.len() - 1].col);
        }
        assert(lx.col == ly.col);
        assert(lx == ly);
        let xs = x.drop_last();
        let ys = y.drop_last();
        assert forall|c: int| count_at(xs, c) == count_at(ys, c) by {
            lemma_drop_last_count(x, c);
            lemma_drop_last_count(y, c);
            assert(count_at(x, c) == count_at(y, c));
        }
        lemma_entries_determined(xs, ys);
        assert(x =~= xs.push(lx));
        assert(y =~= ys.push(ly));
    }
}

/// A corpus has exactly one index: two indexes of the same documents in
/// the same order agree in vocabulary, document frequencies, document
/// count and every stored matrix entry.
pub proof fn lemma_index_determined(a: IndexModel, b: IndexModel, docs: Seq<Seq<Seq<char>>>)
    requires
        is_index_of(a, docs),
        is_index_of(b, docs),
    ensures
        a == b,
{
    assert(a.doc_freq =~= b.doc_freq);
    assert forall|i: int| 0 <= i < docs.len() implies a.rows[i] == b.rows[i] by {
        let x = a.rows[i];
        let y = b.rows[i];
        assert(is_row_of(x, docs[i], a.terms, a.doc_freq, a.num_docs));
        assert(is_row_of(y, docs[i], a.terms, a.doc_freq, a.num_docs));
        assert forall|c: int| count_at(x.entries, c) == count_at(y.entries, c) by {
            if 0 <= c < a.terms.len() {
                let counted = if weighted(a.doc_freq, a.num_docs, c) {
                    occurrences(docs[i], a.terms[c])
                } else {
                    0
                };
                assert(count_at(x.entries, c) == counted);
                assert(count_at(y.entries, c) == counted);
            } else {
                if has_col(x.entries, c) {
                    let k = choose|k: int| 0 <= k < x.entries.len() && #[trigger] x.entries[k].col == c;
                    assert(x.entries[k].col < a.terms.len());
                }
                if has_col(y.entries, c) {
                    let k = choose|k: int| 0 <= k < y.entries.len() && #[trigger] y.entries[k].col == c;
                    assert(y.entries[k].col < a.terms.len());
                }
            }
        }
        lemma_entries_determined(x.entries, y.entries);
    }
    assert(a.rows =~= b.rows);
}

/// The index of a corpus is internally consistent.
pub proof fn lemma_index_of_is_wf(m: IndexModel, docs: Seq<Seq<Seq<char>>>)
    requires
        is_index_of(m, docs),
    ensures
        index_wf(m),
{
    lemma_vocabulary_of(docs);
    assert forall|j: int| 0 <= j < m.terms.len() implies 1 <= (#[trigger] m.doc_freq[j])
        <= m.num_docs && rows_with_col(m.rows, j) == stored_in(m, j) by {
        lemma_cells_of_rows(m.rows, docs, m.terms, m.doc_freq, m.num_docs, j);
        lemma_doc_frequency_bounds(docs, m.terms[j]);
        assert(m.terms.contains(m.terms[j]));
    }
    assert forall|i: int| 0 <= i < m.rows.len() implies row_wf(#[trigger] m.rows[i]) && cols_below(
        m.rows[i].entries,
        m.terms.len() as int,
    ) by {
        assert(is_row_of(m.rows[i], docs[i], m.terms, m.doc_freq, m.num_docs));
    }
}

/// Builds the index of a catalog of raw title strings: every title is
/// normalized, then indexed. The result is determined by the titles and
/// their order.
pub fn build_tfidf_index(normalizer: &Normalizer, docs: &Vec<String>) -> (index: TfidfIndex)
    ensures
        is_index_of(index@, corpus_terms(docs.deep_view())),
{
    let stemmed_docs = normalizer.normalize_all(docs);
    build_from_terms(&stemmed_docs)
}

} // verus!
