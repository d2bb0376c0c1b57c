//! The sparse matrix in rows: one row per document, one column per
//! vocabulary term. A stored entry `(col, count)` of a row with `doc_len`
//! tokens stands for the weight `tf * idf` with `tf = count / doc_len` and
//! `idf = ln(num_docs / doc_freq)`. Zero weights are not stored: a row
//! holds no entry for a term that does not occur in the document, and none
//! for a term that occurs in every document, whose `idf` is `ln(1) = 0`.

use crate::vocab::Vocabulary;
use sprs::TriMat;
use vstd::prelude::*;

verus! {

/// The triplet matrix of the `sprs` crate, carried opaquely: a list of
/// `(row, column, value)` triplets inside a fixed shape.
#[verifier::external_type_specification]
#[verifier::external_body]
#[verifier::reject_recursive_types(IStorage)]
#[verifier::reject_recursive_types(DStorage)]
pub struct ExTriMatBase<IStorage, DStorage>(sprs::TriMatBase<IStorage, DStorage>);

/// The triplets that a triplet matrix holds, in the order in which they
/// were added.
pub uninterp spec fn triplets(t: TriMat<u64>) -> Seq<(usize, usize, u64)>;

/// The shape that a triplet matrix was made with: rows, then columns.
pub uninterp spec fn triplet_shape(t: TriMat<u64>) -> (usize, usize);

/// `sprs::TriMat::new`: an empty triplet matrix of the shape given.
#[verifier::external_body]
fn triplets_new(rows: usize, cols: usize) -> (t: TriMat<u64>)
    ensures
        triplets(t) == Seq::<(usize, usize, u64)>::empty(),
        triplet_shape(t) == (rows, cols),
{
    TriMat::new((rows, cols))
}

/// `sprs::TriMat::add_triplet`: appends one triplet; the position must lie
/// inside the shape.
#[verifier::external_body]
fn triplets_add(t: &mut TriMat<u64>, row: usize, col: usize, value: u64)
    requires
        row < triplet_shape(*old(t)).0,
        col < triplet_shape(*old(t)).1,
    ensures
        triplets(*final(t)) == triplets(*old(t)).push((row, col, value)),
        triplet_shape(*final(t)) == triplet_shape(*old(t)),
{
    t.add_triplet(row, col, value)
}

/// `sprs::TriMat::to_csr`, each row then read out with `outer_iterator`:
/// the compressed rows of a triplet matrix. There is one row per row of the
/// shape; a row holds one cell for every column that has a triplet in that
/// row, columns ascending, and the cell holds the sum of the values of
/// those triplets. The sums must fit the value type.
#[verifier::external_body]
fn compressed_rows(t: &TriMat<u64>) -> (rows: Vec<Vec<Entry>>)
    requires
        forall|r: int, c: int| cell_sum(triplets(*t), r, c) <= u64::MAX,
    ensures
        rows.len() == triplet_shape(*t).0,
        forall|r: int| 0 <= r < rows.len() ==> sorted_by_col((#[trigger] rows[r])@),
        forall|r: int, c: int|
            0 <= r < rows.len() ==> (has_col(rows[r]@, c) <==> #[trigger] has_triplet(
                triplets(*t),
                r,
                c,
            )),
        forall|r: int, c: int|
            0 <= r < rows.len() && #[trigger] has_triplet(triplets(*t), r, c) ==> count_at(
                rows[r]@,
                c,
            ) == cell_sum(triplets(*t), r, c),
{
    t.to_csr::<usize>()
        .outer_iterator()
        .map(|row| row.iter().map(|(col, count)| Entry { col: col as u64, count: *count }).collect())
        .collect()
}

/// The sum of the values of the triplets at one position.
pub open spec fn cell_sum(trips: Seq<(usize, usize, u64)>, r: int, c: int) -> nat
    decreases trips.len(),
{
    if trips.len() == 0 {
        0
    } else {
        cell_sum(trips.drop_last(), r, c) + if trips.last().0 == r && trips.last().1 == c {
            trips.last().2 as nat
        } else {
            0nat
        }
    }
}

/// Whether some triplet stands at a position.
pub open spec fn has_triplet(trips: Seq<(usize, usize, u64)>, r: int, c: int) -> bool {
    exists|k: int| 0 <= k < trips.len() && (#[trigger] trips[k]).0 == r && trips[k].1 == c
}

/// Every triplet lies inside the shape and has the value one: each stands
/// for one occurrence of a term in a document.
pub open spec fn unit_triplets(trips: Seq<(usize, usize, u64)>, rows: int, cols: int) -> bool {
    forall|k: int|
        0 <= k < trips.len() ==> (#[trigger] trips[k]).0 < rows && trips[k].1 < cols && trips[k].2
            == 1
}

/// One more triplet adds its value to the sum of its position and leaves
/// every other sum as it was.
pub proof fn lemma_cell_sum_push(
    trips: Seq<(usize, usize, u64)>,
    added: (usize, usize, u64),
    r: int,
    c: int,
)
    ensures
        cell_sum(trips.push(added), r, c) == cell_sum(trips, r, c) + if added.0 == r && added.1
            == c {
            added.2 as nat
        } else {
            0nat
        },
{
    assert(trips.push(added).drop_last() =~= trips);
}

/// With unit triplets, the sum of a position counts its triplets: it is at
/// least one exactly where a triplet stands, and that is inside the shape.
pub proof fn lemma_cell_sum_unit(
    trips: Seq<(usize, usize, u64)>,
    rows: int,
    cols: int,
    r: int,
    c: int,
)
    requires
        unit_triplets(trips, rows, cols),
    ensures
        has_triplet(trips, r, c) <==> cell_sum(trips, r, c) >= 1,
        has_triplet(trips, r, c) ==> 0 <= r < rows && 0 <= c < cols,
    decreases trips.len(),
{
    if trips.len() > 0 {
        let most = trips.drop_last();
        assert forall|k: int| 0 <= k < most.len() implies (#[trigger] most[k]).0 < rows && most[k].1
            < cols && most[k].2 == 1 by {
            assert(most[k] == trips[k]);
        }
        lemma_cell_sum_unit(most, rows, cols, r, c);
        let last = trips[trips.len() - 1];
        assert(last == trips.last());
        if has_triplet(most, r, c) {
            let k = choose|k: int| 0 <= k < most.len() && (#[trigger] most[k]).0 == r && most[k].1 == c;
            assert(trips[k].0 == r && trips[k].1 == c);
        }
        if has_triplet(trips, r, c) {
            let k = choose|k: int|
                0 <= k < trips.len() && (#[trigger] trips[k]).0 == r && trips[k].1 == c;
            if k < most.len() {
                assert(most[k].0 == r && most[k].1 == c);
            }
        }
    }
}

/// One stored cell of a row: the column and how often its term occurs.
#[derive(Clone, Copy, Debug, PartialEq, Eq)]
pub struct Entry {
    pub col: u64,
    pub count: u64,
}

/// The mathematical content of a row.
pub struct RowModel {
    pub doc_len: u64,
    pub entries: Seq<Entry>,
}

/// How often `term` occurs in `doc`.
pub open spec fn occurrences(doc: Seq<Seq<char>>, term: Seq<char>) -> nat
    decreases doc.len(),
{
    if doc.len() == 0 {
        0
    } else {
        occurrences(doc.drop_last(), term) + if doc.last() == term {
            1nat
        } else {
            0nat
        }
    }
}

/// Columns strictly ascending: each column is stored at most once.
pub open spec fn sorted_by_col(entries: Seq<Entry>) -> bool {
    forall|a: int, b: int| 0 <= a < b < entries.len() ==> entries[a].col < entries[b].col
}

/// Whether some entry is stored for column `col`.
pub open spec fn has_col(entries: Seq<Entry>, col: int) -> bool {
    exists|k: int| 0 <= k < entries.len() && #[trigger] entries[k].col == col
}

/// The count a row holds for column `col`: the stored one, or zero.
pub open spec fn count_at(entries: Seq<Entry>, col: int) -> nat {
    if has_col(entries, col) {
        let k = choose|k: int| 0 <= k < entries.len() && #[trigger] entries[k].col == col;
        entries[k].count as nat
    } else {
        0
    }
}

/// Columns ascending and no zero stored.
pub open spec fn entries_wf(entries: Seq<Entry>) -> bool {
    &&& sorted_by_col(entries)
    &&& forall|k: int| 0 <= k < entries.len() ==> (#[trigger] entries[k]).count >= 1
}

/// A well-formed row: ascending columns, and every count between one and
/// the document's length.
pub open spec fn row_wf(row: RowModel) -> bool {
    &&& entries_wf(row.entries)
    &&& forall|k: int| 0 <= k < row.entries.len() ==> (#[trigger] row.entries[k]).count <= row.doc_len
}

/// Every stored column is below `width`.
pub open spec fn cols_below(entries: Seq<Entry>, width: int) -> bool {
    forall|k: int| 0 <= k < entries.len() ==> (#[trigger] entries[k]).col < width
}

/// `row` counts the terms of `doc` over the vocabulary `terms`: it records
/// the document's length and, for every column, exactly the number of
/// occurrences of that column's term, whatever the term weighs.
pub open spec fn counts_terms(row: RowModel, doc: Seq<Seq<char>>, terms: Seq<Seq<char>>) -> bool {
    &&& row.doc_len == doc.len()
    &&& row_wf(row)
    &&& cols_below(row.entries, terms.len() as int)
    &&& forall|j: int|
        #![trigger count_at(row.entries, j)]
        #![trigger terms[j]]
        0 <= j < terms.len() ==> count_at(row.entries, j) == occurrences(doc, terms[j])
}

/// The document frequency that counts for column `j`: the one listed, or
/// one where none is listed.
pub open spec fn freq_at(doc_freq: Seq<u64>, j: int) -> int {
    if 0 <= j < doc_freq.len() {
        doc_freq[j] as int
    } else {
        1
    }
}

/// Whether column `j` carries weight: its inverse document frequency
/// `ln(num_docs / doc_freq)` is zero exactly when the document frequency
/// equals the document count.
pub open spec fn weighted(doc_freq: Seq<u64>, num_docs: u64, j: int) -> bool {
    freq_at(doc_freq, j) != num_docs
}

/// `kept` is `row` without its weightless cells: the same document length,
/// and in every column the count of `row` where the column carries weight
/// and nothing where it does not.
pub open spec fn keeps_weighted(
    kept: RowModel,
    row: RowModel,
    doc_freq: Seq<u64>,
    num_docs: u64,
) -> bool {
    &&& kept.doc_len == row.doc_len
    &&& row_wf(kept)
    &&& forall|c: int|
        #![trigger count_at(kept.entries, c)]
        count_at(kept.entries, c) == if weighted(doc_freq, num_docs, c) {
            count_at(row.entries, c)
        } else {
            0
        }
}

/// `row` is the matrix row of `doc` over the vocabulary `terms`, with the
/// document frequencies and document count given: it records the
/// document's length, and it holds a cell for a column exactly when the
/// column's term occurs in the document and carries weight; the cell then
/// holds the number of occurrences.
pub open spec fn is_row_of(
    row: RowModel,
    doc: Seq<Seq<char>>,
    terms: Seq<Seq<char>>,
    doc_freq: Seq<u64>,
    num_docs: u64,
) -> bool {
    &&& row.doc_len == doc.len()
    &&& row_wf(row)
    &&& cols_below(row.entries, terms.len() as int)
    &&& forall|j: int|
        #![trigger count_at(row.entries, j)]
        #![trigger terms[j]]
        0 <= j < terms.len() ==> count_at(row.entries, j) == if weighted(doc_freq, num_docs, j) {
            occurrences(doc, terms[j])
        } else {
            0
        }
}

/// Dropping the last entry of a sorted row clears its column and leaves
/// every other column's count as it was.
pub proof fn lemma_drop_last_count(x: Seq<Entry>, c: int)
    requires
        entries_wf(x),
        x.len() > 0,
    ensures
        entries_wf(x.drop_last()),
        count_at(x.drop_last(), c) == if c == x.last().col {
            0
        } else {
            count_at(x, c)
        },
        count_at(x, x.last().col as int) == x.last().count,
{
    let xs = x.drop_last();
    lemma_count_at_stored(x, x.len() - 1);
    assert forall|a: int, b: int| 0 <= a < b < xs.len() implies xs[a].col < xs[b].col by {
        assert(x[a].col < x[b].col);
    }
    assert forall|k: int| 0 <= k < xs.len() implies (#[trigger] xs[k]).count >= 1 by {
        assert(x[k].count >= 1);
    }
    if has_col(xs, c) {
        let k = choose|k: int| 0 <= k < xs.len() && #[trigger] xs[k].col == c;
        assert(x[k].col == c);
        assert(x[k].col < x[x.len() - 1].col);
        lemma_count_at_stored(xs, k);
        lemma_count_at_stored(x, k);
    } else if c != x.last().col {
        if has_col(x, c) {
            let k = choose|k: int| 0 <= k < x.len() && #[trigger] x[k].col == c;
            assert(xs[k].col == c);
        }
    }
}

/// The cells that are left of a row that counts the terms of a document
/// are the matrix row of that document.
pub proof fn lemma_kept_is_row(
    kept: RowModel,
    row: RowModel,
    doc: Seq<Seq<char>>,
    terms: Seq<Seq<char>>,
    doc_freq: Seq<u64>,
    num_docs: u64,
)
    requires
        counts_terms(row, doc, terms),
        keeps_weighted(kept, row, doc_freq, num_docs),
    ensures
        is_row_of(kept, doc, terms, doc_freq, num_docs),
{
    assert forall|k: int| 0 <= k < kept.entries.len() implies (#[trigger] kept.entries[k]).col
        < terms.len() by {
        let c = kept.entries[k].col as int;
        lemma_count_at_stored(kept.entries, k);
        assert(count_at(kept.entries, c) >= 1);
        assert(has_col(row.entries, c));
        let b = choose|b: int| 0 <= b < row.entries.len() && #[trigger] row.entries[b].col == c;
        assert(row.entries[b].col < terms.len());
    }
    assert forall|j: int| 0 <= j < terms.len() implies count_at(kept.entries, j) == if weighted(
        doc_freq,
        num_docs,
        j,
    ) {
        occurrences(doc, #[trigger] terms[j])
    } else {
        0
    } by {
        assert(count_at(row.entries, j) == occurrences(doc, terms[j]));
    }
}

/// In a sorted row the count of a stored column is the one stored with it.
pub proof fn lemma_count_at_stored(entries: Seq<Entry>, k: int)
    requires
        sorted_by_col(entries),
        0 <= k < entries.len(),
    ensures
        has_col(entries, entries[k].col as int),
        count_at(entries, entries[k].col as int) == entries[k].count,
{
    let col = entries[k].col as int;
    assert(has_col(entries, col));
    let chosen = choose|c: int| 0 <= c < entries.len() && #[trigger] entries[c].col == col;
    if chosen < k {
        assert(entries[chosen].col < entries[k].col);
    } else if k < chosen {
        assert(entries[k].col < entries[chosen].col);
    }
}

/// A term occurs at most as often as the document is long, and at least
/// once exactly when the document contains it.
pub proof fn lemma_occurrences(doc: Seq<Seq<char>>, term: Seq<char>)
    ensures
        occurrences(doc, term) <= doc.len(),
        occurrences(doc, term) > 0 <==> doc.contains(term),
    decreases doc.len(),
{
    if doc.len() > 0 {
        let shorter = doc.drop_last();
        lemma_occurrences(shorter, term);
        if shorter.contains(term) {
            let k = choose|k: int| 0 <= k < shorter.len() && shorter[k] == term;
            assert(doc[k] == term);
        }
        if doc.last() == term {
            assert(doc[doc.len() - 1] == term);
        }
        if doc.contains(term) {
            let k = choose|k: int| 0 <= k < doc.len() && doc[k] == term;
            if k < doc.len() - 1 {
                assert(shorter[k] == term);
            }
        }
    }
}

/// The number of occurrences is the multiplicity in the document's bag of
/// terms, so it does not depend on the order of the terms.
pub proof fn lemma_occurrences_multiset(doc: Seq<Seq<char>>, term: Seq<char>)
    ensures
        occurrences(doc, term) == doc.to_multiset().count(term),
    decreases doc.len(),
{
    broadcast use vstd::seq_lib::group_to_multiset_ensures;

    if doc.len() == 0 {
        assert(doc =~= Seq::empty());
    } else {
        let shorter = doc.drop_last();
        lemma_occurrences_multiset(shorter, term);
        assert(doc =~= shorter.push(doc.last()));
        assert(doc.to_multiset() =~= shorter.to_multiset().insert(doc.last()));
    }
}

/// One sparse row: a document's length in tokens and its stored counts,
/// columns ascending.
pub struct SparseRow {
    doc_len: u64,
    entries: Vec<Entry>,
}

impl View for SparseRow {
    type V = RowModel;

    closed spec fn view(&self) -> RowModel {
        RowModel { doc_len: self.doc_len, entries: self.entries@ }
    }
}

impl SparseRow {
    #[verifier::type_invariant]
    spec fn inv(self) -> bool {
        row_wf(self@)
    }

    /// The number of tokens of the document, the denominator of every term
    /// frequency in this row.
    pub fn doc_len(&self) -> (n: u64)
        ensures
            n == self@.doc_len,
    {
        self.doc_len
    }

    /// The stored entries, columns ascending.
    pub fn entries(&self) -> (entries: &Vec<Entry>)
        ensures
            entries@ == self@.entries,
            row_wf(self@),
    {
        proof {
            use_type_invariant(self);
        }
        &self.entries
    }

    /// The count stored for `col`, zero when the column is not stored.
    pub fn count(&self, col: u64) -> (n: u64)
        ensures
            n == count_at(self@.entries, col as int),
    {
        proof {
            use_type_invariant(self);
        }
        let mut k: usize = 0;
        while k < self.entries.len()
            invariant
                k <= self.entries.len(),
                sorted_by_col(self.entries@),
                forall|a: int| 0 <= a < k ==> (#[trigger] self.entries[a]).col < col,
            decreases self.entries.len() - k,
        {
            let entry = self.entries[k];
            if entry.col == col {
                proof {
                    lemma_count_at_stored(self.entries@, k as int);
                }
                return entry.count;
            }
            if entry.col > col {
                proof {
                    lemma_absent_between(self.entries@, k as int, col as int);
                }
                return 0;
            }
            k += 1;
        }
        proof {
            lemma_absent_between(self.entries@, k as int, col as int);
        }
        0
    }

    /// Builds a row from its parts when they form a well-formed row whose
    /// columns lie below `width`; `None` otherwise.
    pub fn from_parts(doc_len: u64, entries: Vec<Entry>, width: u64) -> (row: Option<SparseRow>)
        ensures
            row is Some <==> (row_wf(RowModel { doc_len, entries: entries@ }) && cols_below(
                entries@,
                width as int,
            )),
            row matches Some(r) ==> r@ == (RowModel { doc_len, entries: entries@ }),
    {
        let mut k: usize = 0;
        while k < entries.len()
            invariant
                k <= entries.len(),
                row_wf(RowModel { doc_len, entries: entries@.take(k as int) }),
                cols_below(entries@.take(k as int), width as int),
            decreases entries.len() - k,
        {
            let entry = entries[k];
            let ghost whole = RowModel { doc_len, entries: entries@ };
            if entry.count < 1 || entry.count > doc_len || entry.col >= width {
                assert(!(row_wf(whole) && cols_below(entries@, width as int)));
                return None;
            }
            if k > 0 && entries[k - 1].col >= entry.col {
                assert(!sorted_by_col(entries@));
                return None;
            }
            proof {
                let next = entries@.take(k as int + 1);
                let prev = entries@.take(k as int);
                assert forall|a: int, b: int| 0 <= a < b < next.len() implies next[a].col
                    < next[b].col by {
                    if b < k {
                        assert(prev[a].col < prev[b].col);
                    } else if a < k - 1 {
                        assert(prev[a].col < prev[k - 1].col);
                    }
                }
                assert forall|a: int| 0 <= a < next.len() implies 1 <= (#[trigger] next[a]).count
                    <= doc_len && next[a].col < width by {
                    if a < k {
                        assert(prev[a] == next[a]);
                    }
                }
            }
            k += 1;
        }
        assert(entries@.take(k as int) =~= entries@);
        Some(SparseRow { doc_len, entries })
    }
}

/// In a sorted row, a column that falls strictly between the columns stored
/// just before and at position `k` is not stored at all.
pub proof fn lemma_absent_between(entries: Seq<Entry>, k: int, col: int)
    requires
        sorted_by_col(entries),
        0 <= k <= entries.len(),
        forall|a: int| 0 <= a < k ==> (#[trigger] entries[a]).col < col,
        k < entries.len() ==> entries[k].col > col,
    ensures
        !has_col(entries, col),
        count_at(entries, col) == 0,
{
    if has_col(entries, col) {
        let c = choose|c: int| 0 <= c < entries.len() && #[trigger] entries[c].col == col;
        if c > k {
            assert(entries[k].col < entries[c].col);
        }
    }
}

/// The compressed row of a document that was added as unit triplets counts
/// the terms of the document.
pub proof fn lemma_cells_count_terms(
    trips: Seq<(usize, usize, u64)>,
    rows: int,
    entries: Seq<Entry>,
    r: int,
    doc: Seq<Seq<char>>,
    terms: Seq<Seq<char>>,
)
    requires
        unit_triplets(trips, rows, terms.len() as int),
        sorted_by_col(entries),
        forall|c: int| has_col(entries, c) <==> #[trigger] has_triplet(trips, r, c),
        forall|c: int| #[trigger]
            has_triplet(trips, r, c) ==> count_at(entries, c) == cell_sum(trips, r, c),
        forall|c: int|
            0 <= c < terms.len() ==> #[trigger] cell_sum(trips, r, c) == occurrences(doc, terms[c]),
        doc.len() <= u64::MAX,
    ensures
        counts_terms(RowModel { doc_len: doc.len() as u64, entries }, doc, terms),
{
    let row = RowModel { doc_len: doc.len() as u64, entries };
    assert forall|k: int| 0 <= k < entries.len() implies 1 <= (#[trigger] entries[k]).count
        <= doc.len() && entries[k].col < terms.len() by {
        let c = entries[k].col as int;
        lemma_count_at_stored(entries, k);
        assert(has_triplet(trips, r, c));
        lemma_cell_sum_unit(trips, rows, terms.len() as int, r, c);
        assert(cell_sum(trips, r, c) == occurrences(doc, terms[c]));
        lemma_occurrences(doc, terms[c]);
    }
    assert forall|j: int| 0 <= j < terms.len() implies count_at(entries, j) == occurrences(
        doc,
        #[trigger] terms[j],
    ) by {
        lemma_cell_sum_unit(trips, rows, terms.len() as int, r, j);
        assert(cell_sum(trips, r, j) == occurrences(doc, terms[j]));
        if !has_triplet(trips, r, j) {
            assert(!has_col(entries, j));
        }
    }
    assert(counts_terms(row, doc, terms));
}

/// Adds the terms of one document to a triplet matrix, one unit triplet
/// per occurrence of a term that the vocabulary holds.
fn add_document(t: &mut TriMat<u64>, row: usize, vocabulary: &Vocabulary, doc: &Vec<String>)
    requires
        row < triplet_shape(*old(t)).0,
        triplet_shape(*old(t)).1 == vocabulary@.len(),
        unit_triplets(
            triplets(*old(t)),
            triplet_shape(*old(t)).0 as int,
            triplet_shape(*old(t)).1 as int,
        ),
    ensures
        triplet_shape(*final(t)) == triplet_shape(*old(t)),
        unit_triplets(
            triplets(*final(t)),
            triplet_shape(*old(t)).0 as int,
            triplet_shape(*old(t)).1 as int,
        ),
        forall|r: int, c: int| #[trigger]
            cell_sum(triplets(*final(t)), r, c) == cell_sum(triplets(*old(t)), r, c) + if r == row
                && 0 <= c < vocabulary@.len() {
                occurrences(doc.deep_view(), vocabulary@[c])
            } else {
                0
            },
{
    let ghost words = doc.deep_view();
    let ghost terms = vocabulary@;
    let ghost start = triplets(*t);
    let ghost shape = triplet_shape(*t);
    let mut k: usize = 0;
    assert(words.take(0) =~= Seq::empty());
    while k < doc.len()
        invariant
            k <= doc.len(),
            words == doc.deep_view(),
            terms == vocabulary@,
            shape == triplet_shape(*t),
            row < shape.0,
            shape.1 == terms.len(),
            unit_triplets(triplets(*t), shape.0 as int, shape.1 as int),
            forall|r: int, c: int| #[trigger]
                cell_sum(triplets(*t), r, c) == cell_sum(start, r, c) + if r == row && 0 <= c
                    < terms.len() {
                    occurrences(words.take(k as int), terms[c])
                } else {
                    0
                },
        decreases doc.len() - k,
    {
        let ghost before = triplets(*t);
        let ghost seen = words.take(k as int);
        let ghost next = words.take(k as int + 1);
        assert(next.drop_last() =~= seen);
        assert(next.last() == words[k as int]);
        assert(words[k as int] == doc[k as int]@);
        match vocabulary.index_of(doc[k].as_str()) {
            Some(col) => {
                triplets_add(t, row, col as usize, 1);
                proof {
                    let after = triplets(*t);
                    assert(after == before.push((row, col as usize, 1u64)));
                    assert forall|r: int, c: int| #[trigger]
                        cell_sum(after, r, c) == cell_sum(start, r, c) + if r == row && 0 <= c
                            < terms.len() {
                            occurrences(next, terms[c])
                        } else {
                            0
                        } by {
                        lemma_cell_sum_push(before, (row, col as usize, 1u64), r, c);
                        assert(cell_sum(before, r, c) == cell_sum(start, r, c) + if r == row && 0
                            <= c < terms.len() {
                            occurrences(seen, terms[c])
                        } else {
                            0
                        });
                        if 0 <= c < terms.len() && c != col {
                            assert(terms[c] != terms[col as int]);
                        }
                    }
                }
            },
            None => {
                proof {
                    assert forall|r: int, c: int| #[trigger]
                        cell_sum(triplets(*t), r, c) == cell_sum(start, r, c) + if r == row && 0
                            <= c < terms.len() {
                            occurrences(next, terms[c])
                        } else {
                            0
                        } by {
                        assert(cell_sum(before, r, c) == cell_sum(start, r, c) + if r == row && 0
                            <= c < terms.len() {
                            occurrences(seen, terms[c])
                        } else {
                            0
                        });
                        if 0 <= c < terms.len() {
                            assert(terms.contains(terms[c]));
                        }
                    }
                }
            },
        }
        k += 1;
    }
    assert(words.take(k as int) =~= words);
}

/// A row with the cells given.
fn row_of_cells(doc_len: u64, cells: &Vec<Entry>) -> (row: SparseRow)
    requires
        row_wf(RowModel { doc_len, entries: cells@ }),
    ensures
        row@ == (RowModel { doc_len, entries: cells@ }),
{
    let mut entries: Vec<Entry> = Vec::new();
    let mut k: usize = 0;
    while k < cells.len()
        invariant
            k <= cells.len(),
            entries@ == cells@.take(k as int),
        decreases cells.len() - k,
    {
        entries.push(cells[k]);
        assert(entries@ =~= cells@.take(k as int + 1));
        k += 1;
    }
    assert(cells@.take(k as int) =~= cells@);
    SparseRow { doc_len, entries }
}

/// Counts the terms of every document of a batch: one row per document, in
/// order, weightless cells included. The occurrences are gathered as unit
/// triplets and compressed into rows.
pub fn count_matrix(stemmed_docs: &Vec<Vec<String>>, vocabulary: &Vocabulary) -> (rows: Vec<
    SparseRow,
>)
    ensures
        rows.len() == stemmed_docs.len(),
        forall|i: int|
            0 <= i < rows.len() ==> counts_terms(
                (#[trigger] rows[i])@,
                stemmed_docs.deep_view()[i],
                vocabulary@,
            ),
{
    let ghost docs = stemmed_docs.deep_view();
    let ghost terms = vocabulary@;
    let width = vocabulary.len();
    let n = stemmed_docs.len();
    let mut t = triplets_new(n, width);
    let mut i: usize = 0;
    assert(unit_triplets(triplets(t), n as int, width as int));
    while i < n
        invariant
            i <= n,
            n == stemmed_docs.len(),
            docs == stemmed_docs.deep_view(),
            terms == vocabulary@,
            width == terms.len(),
            triplet_shape(t) == (n, width),
            unit_triplets(triplets(t), n as int, width as int),
            forall|r: int, c: int| #[trigger]
                cell_sum(triplets(t), r, c) == if 0 <= r < i && 0 <= c < terms.len() {
                    occurrences(docs[r], terms[c])
                } else {
                    0
                },
        decreases n - i,
    {
        let ghost before = triplets(t);
        assert(docs[i as int] == stemmed_docs[i as int].deep_view());
        add_document(&mut t, i, vocabulary, &stemmed_docs[i]);
        proof {
            assert forall|r: int, c: int| #[trigger]
                cell_sum(triplets(t), r, c) == if 0 <= r < i + 1 && 0 <= c < terms.len() {
                    occurrences(docs[r], terms[c])
                } else {
                    0
                } by {
                assert(cell_sum(before, r, c) == if 0 <= r < i && 0 <= c < terms.len() {
                    occurrences(docs[r], terms[c])
                } else {
                    0
                });
            }
        }
        i += 1;
    }
    let ghost trips = triplets(t);
    proof {
        assert forall|r: int, c: int| cell_sum(trips, r, c) <= u64::MAX by {
            if 0 <= r < n && 0 <= c < terms.len() {
                lemma_occurrences(docs[r], terms[c]);
                assert(docs[r].len() == stemmed_docs[r].len());
            }
        }
    }
    let cells = compressed_rows(&t);
    let mut rows: Vec<SparseRow> = Vec::new();
    let mut r: usize = 0;
    while r < n
        invariant
            r <= n,
            n == stemmed_docs.len(),
            cells.len() == n,
            docs == stemmed_docs.deep_view(),
            terms == vocabulary@,
            trips == triplets(t),
            unit_triplets(trips, n as int, terms.len() as int),
            forall|a: int| 0 <= a < cells.len() ==> sorted_by_col((#[trigger] cells[a])@),
            forall|a: int, c: int|
                0 <= a < cells.len() ==> (has_col(cells[a]@, c) <==> #[trigger] has_triplet(
                    trips,
                    a,
                    c,
                )),
            forall|a: int, c: int|
                0 <= a < cells.len() && #[trigger] has_triplet(trips, a, c) ==> count_at(
                    cells[a]@,
                    c,
                ) == cell_sum(trips, a, c),
            forall|a: int, c: int| #[trigger]
                cell_sum(trips, a, c) == if 0 <= a < n && 0 <= c < terms.len() {
                    occurrences(docs[a], terms[c])
                } else {
                    0
                },
            rows.len() == r,
            forall|a: int| 0 <= a < r ==> counts_terms((#[trigger] rows[a])@, docs[a], terms),
        decreases n - r,
    {
        let doc_len = stemmed_docs[r].len() as u64;
        proof {
            assert(docs[r as int].len() == stemmed_docs[r as int].len());
            lemma_cells_count_terms(
                trips,
                n as int,
                cells[r as int]@,
                r as int,
                docs[r as int],
                terms,
            );
        }
        let row = row_of_cells(doc_len, &cells[r]);
        rows.push(row);
        r += 1;
    }
    rows
}

/// Counts the terms of one normalized document over a frozen vocabulary.
/// Terms that the vocabulary does not hold contribute no entry; they still
/// count towards the document's length.
pub fn count_terms(vocabulary: &Vocabulary, doc: &Vec<String>) -> (row: SparseRow)
    ensures
        counts_terms(row@, doc.deep_view(), vocabulary@),
{
    let ghost words = doc.deep_view();
    let ghost terms = vocabulary@;
    let width = vocabulary.len();
    let mut t = triplets_new(1, width);
    assert(unit_triplets(triplets(t), 1, width as int));
    let ghost start = triplets(t);
    add_document(&mut t, 0, vocabulary, doc);
    let ghost trips = triplets(t);
    proof {
        assert(start.len() == 0);
        assert(words.len() == doc.len());
        assert forall|r: int, c: int| cell_sum(trips, r, c) <= u64::MAX by {
            assert(cell_sum(start, r, c) == 0);
            assert(cell_sum(trips, r, c) == cell_sum(start, r, c) + if r == 0 && 0 <= c
                < terms.len() {
                occurrences(words, terms[c])
            } else {
                0
            });
            if 0 <= c < terms.len() {
                lemma_occurrences(words, terms[c]);
            }
        }
    }
    let cells = compressed_rows(&t);
    proof {
        assert forall|c: int| 0 <= c < terms.len() implies #[trigger] cell_sum(trips, 0, c)
            == occurrences(words, terms[c]) by {
            assert(cell_sum(start, 0, c) == 0);
        }
        lemma_cells_count_terms(trips, 1, cells[0]@, 0, words, terms);
    }
    row_of_cells(doc.len() as u64, &cells[0])
}

/// Whether column `col` carries weight.
fn carries_weight(doc_freq: &Vec<u64>, num_docs: u64, col: u64) -> (yes: bool)
    ensures
        yes == weighted(doc_freq@, num_docs, col as int),
{
    if col < doc_freq.len() as u64 {
        doc_freq[col as usize] != num_docs
    } else {
        1 != num_docs
    }
}

/// Leaves out the cells of a row that carry no weight.
pub fn drop_weightless(row: &SparseRow, doc_freq: &Vec<u64>, num_docs: u64) -> (kept: SparseRow)
    ensures
        keeps_weighted(kept@, row@, doc_freq@, num_docs),
{
    let entries = row.entries();
    let doc_len = row.doc_len();
    let mut out: Vec<Entry> = Vec::new();
    let mut k: usize = 0;
    assert forall|c: int| count_at(out@, c) == 0 && count_at(entries@.take(0), c) == 0 by {
        assert(!has_col(out@, c));
        assert(!has_col(entries@.take(0), c));
    }
    while k < entries.len()
        invariant
            k <= entries.len(),
            row_wf(row@),
            entries@ == row@.entries,
            doc_len == row@.doc_len,
            entries_wf(out@),
            forall|a: int| 0 <= a < out@.len() ==> (#[trigger] out@[a]).count <= doc_len,
            forall|a: int, b: int|
                0 <= a < out@.len() && k <= b < entries@.len() ==> (#[trigger] out@[a]).col < (
                #[trigger] entries@[b]).col,
            forall|c: int|
                #![trigger count_at(out@, c)]
                count_at(out@, c) == if weighted(doc_freq@, num_docs, c) {
                    count_at(entries@.take(k as int), c)
                } else {
                    0
                },
        decreases entries.len() - k,
    {
        let entry = entries[k];
        let ghost seen = entries@.take(k as int);
        let ghost next = entries@.take(k as int + 1);
        let ghost before = out@;
        let keep = carries_weight(doc_freq, num_docs, entry.col);
        proof {
            assert(next =~= seen.push(entry));
            assert(entries_wf(next)) by {
                assert forall|a: int, b: int| 0 <= a < b < next.len() implies next[a].col
                    < next[b].col by {
                    assert(entries@[a].col < entries@[b].col);
                }
                assert forall|a: int| 0 <= a < next.len() implies (#[trigger] next[a]).count
                    >= 1 by {
                    assert(entries@[a].count >= 1);
                }
            }
            assert(next.drop_last() =~= seen);
        }
        if keep {
            out.push(entry);
            proof {
                let after = out@;
                assert(after.drop_last() =~= before);
                assert(entries_wf(after)) by {
                    assert forall|a: int, b: int| 0 <= a < b < after.len() implies after[a].col
                        < after[b].col by {
                        if b < before.len() {
                            assert(before[a].col < before[b].col);
                        } else {
                            assert(before[a].col < entries@[k as int].col);
                        }
                    }
                    assert forall|a: int| 0 <= a < after.len() implies (#[trigger] after[a]).count
                        >= 1 by {
                        if a < before.len() {
                            assert(before[a].count >= 1);
                        } else {
                            assert(entries@[k as int].count >= 1);
                        }
                    }
                }
                assert forall|a: int| 0 <= a < after.len() implies (#[trigger] after[a]).count
                    <= doc_len by {
                    if a < before.len() {
                        assert(before[a].count <= doc_len);
                    } else {
                        assert(row@.entries[k as int].count <= doc_len);
                    }
                }
                assert forall|a: int, b: int|
                    0 <= a < after.len() && k + 1 <= b < entries@.len() implies (
                #[trigger] after[a]).col < (#[trigger] entries@[b]).col by {
                    if a < before.len() {
                        assert(before[a].col < entries@[b].col);
                    } else {
                        assert(entries@[k as int].col < entries@[b].col);
                    }
                }
                assert forall|c: int|
                    count_at(after, c) == if weighted(doc_freq@, num_docs, c) {
                        count_at(next, c)
                    } else {
                        0
                    } by {
                    lemma_drop_last_count(after, c);
                    lemma_drop_last_count(next, c);
                    assert(count_at(before, c) == if weighted(doc_freq@, num_docs, c) {
                        count_at(seen, c)
                    } else {
                        0
                    });
                }
            }
        } else {
            proof {
                assert forall|c: int|
                    count_at(out@, c) == if weighted(doc_freq@, num_docs, c) {
                        count_at(next, c)
                    } else {
                        0
                    } by {
                    lemma_drop_last_count(next, c);
                    assert(count_at(before, c) == if weighted(doc_freq@, num_docs, c) {
                        count_at(seen, c)
                    } else {
                        0
                    });
                }
            }
        }
        k += 1;
    }
    assert(entries@.take(k as int) =~= entries@);
    SparseRow { doc_len, entries: out }
}

/// Projects one normalized document into the matrix: its row over a frozen
/// vocabulary, with a cell for every term of the document that the
/// vocabulary holds and that carries weight.
pub fn project_terms(
    vocabulary: &Vocabulary,
    doc: &Vec<String>,
    doc_freq: &Vec<u64>,
    num_docs: u64,
) -> (row: SparseRow)
    ensures
        is_row_of(row@, doc.deep_view(), vocabulary@, doc_freq@, num_docs),
{
    let counted = count_terms(vocabulary, doc);
    let kept = drop_weightless(&counted, doc_freq, num_docs);
    proof {
        lemma_kept_is_row(kept@, counted@, doc.deep_view(), vocabulary@, doc_freq@, num_docs);
    }
    kept
}

/// The sparse matrix of a batch of normalized documents over a frozen
/// vocabulary, with the document frequencies and the document count that
/// the weights are taken against: one row per document, in order, and in
/// each row a cell exactly where the weight is not zero.
pub fn compute_tfidf_matrix(
    stemmed_docs: &Vec<Vec<String>>,
    vocabulary: &Vocabulary,
    doc_freq: &Vec<u64>,
    num_docs: u64,
) -> (rows: Vec<SparseRow>)
    ensures
        rows.len() == stemmed_docs.len(),
        forall|i: int|
            0 <= i < rows.len() ==> is_row_of(
                (#[trigger] rows[i])@,
                stemmed_docs.deep_view()[i],
                vocabulary@,
                doc_freq@,
                num_docs,
            ),
{
    let mut rows: Vec<SparseRow> = Vec::new();
    let mut i: usize = 0;
    while i < stemmed_docs.len()
        invariant
            i <= stemmed_docs.len(),
            rows.len() == i,
            forall|r: int|
                0 <= r < i ==> is_row_of(
                    (#[trigger] rows[r])@,
                    stemmed_docs.deep_view()[r],
                    vocabulary@,
                    doc_freq@,
                    num_docs,
                ),
        decreases stemmed_docs.len() - i,
    {
        let row = project_terms(vocabulary, &stemmed_docs[i], doc_freq, num_docs);
        rows.push(row);
        i += 1;
    }
    rows
}

} // verus!
