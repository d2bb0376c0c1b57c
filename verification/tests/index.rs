use tame::index::{build_from_terms, build_tfidf_index, count_doc_freq, TfidfIndex, WeightParts};
use tame::matrix::{
    compute_tfidf_matrix, count_matrix, count_terms, drop_weightless, project_terms, Entry,
    SparseRow,
};
use tame::text::Normalizer;
use tame::vocab::Vocabulary;

fn strings(items: &[&str]) -> Vec<String> {
    items.iter().map(|s| s.to_string()).collect()
}

fn docs(items: &[&[&str]]) -> Vec<Vec<String>> {
    items.iter().map(|d| strings(d)).collect()
}

fn cells(row: &SparseRow) -> Vec<(u64, u64)> {
    row.entries().iter().map(|e| (e.col, e.count)).collect()
}

#[test]
fn vocabulary_numbers_terms_in_first_seen_order() {
    let v = Vocabulary::from_documents(&docs(&[&["b", "a", "b"], &["c", "a"], &[], &["d", "b"]]));
    assert_eq!(v.terms(), &strings(&["b", "a", "c", "d"]));
    assert_eq!(v.len(), 4);
    assert_eq!(v.index_of("b"), Some(0));
    assert_eq!(v.index_of("a"), Some(1));
    assert_eq!(v.index_of("c"), Some(2));
    assert_eq!(v.index_of("d"), Some(3));
    assert_eq!(v.index_of("e"), None);
    assert_eq!(v.index_of(""), None);
}

#[test]
fn vocabulary_keeps_its_indices_when_documents_follow() {
    let corpus = docs(&[&["b", "a"], &["c", "a"], &["d", "b", "e"]]);
    let whole = Vocabulary::from_documents(&corpus);
    let part = Vocabulary::from_documents(&corpus[..2].to_vec());
    assert_eq!(part.terms(), &strings(&["b", "a", "c"]));
    assert_eq!(&whole.terms()[..part.len()], &part.terms()[..]);
    for term in part.terms() {
        assert_eq!(whole.index_of(term), part.index_of(term));
    }
}

#[test]
fn vocabulary_of_no_documents_is_empty() {
    let v = Vocabulary::from_documents(&docs(&[]));
    assert_eq!(v.len(), 0);
    assert_eq!(v.index_of("a"), None);
}

#[test]
fn vocabulary_from_terms_refuses_a_repeated_term() {
    assert!(Vocabulary::from_terms(strings(&["a", "b", "a"])).is_none());
    let v = Vocabulary::from_terms(strings(&["a", "b"])).unwrap();
    assert_eq!(v.index_of("b"), Some(1));
}

#[test]
fn row_counts_occurrences_and_ignores_unknown_terms() {
    let v = Vocabulary::from_terms(strings(&["x", "y", "z"])).unwrap();
    let row = count_terms(&v, &strings(&["z", "q", "x", "z", "z", "q"]));
    assert_eq!(row.doc_len(), 6);
    assert_eq!(cells(&row), vec![(0, 1), (2, 3)]);
    let mixed = count_terms(&v, &strings(&["z", "x", "y", "z", "x", "z"]));
    assert_eq!(cells(&mixed), vec![(0, 2), (1, 1), (2, 3)]);
    assert_eq!(row.count(0), 1);
    assert_eq!(row.count(1), 0);
    assert_eq!(row.count(2), 3);
    assert_eq!(row.count(7), 0);
}

#[test]
fn row_of_unknown_terms_only_is_the_zero_vector() {
    let v = Vocabulary::from_terms(strings(&["x", "y"])).unwrap();
    let row = project_terms(&v, &strings(&["p", "q"]), &vec![1, 1], 5);
    assert_eq!(row.doc_len(), 2);
    assert!(row.entries().is_empty());
    let empty = project_terms(&v, &strings(&[]), &vec![1, 1], 5);
    assert_eq!(empty.doc_len(), 0);
    assert!(empty.entries().is_empty());
}

#[test]
fn row_does_not_depend_on_term_order() {
    let v = Vocabulary::from_terms(strings(&["x", "y", "z"])).unwrap();
    let a = project_terms(&v, &strings(&["x", "y", "y", "z"]), &vec![1, 2, 3], 4);
    let b = project_terms(&v, &strings(&["y", "z", "y", "x"]), &vec![1, 2, 3], 4);
    assert_eq!(a.doc_len(), b.doc_len());
    assert_eq!(cells(&a), cells(&b));
}

#[test]
fn row_from_parts_accepts_only_well_formed_rows() {
    let ok = SparseRow::from_parts(3, vec![Entry { col: 0, count: 1 }, Entry { col: 4, count: 2 }], 5);
    assert_eq!(cells(&ok.unwrap()), vec![(0, 1), (4, 2)]);
    assert!(SparseRow::from_parts(0, vec![], 0).is_some());
    // column outside the vocabulary
    assert!(SparseRow::from_parts(3, vec![Entry { col: 5, count: 1 }], 5).is_none());
    // columns not ascending
    assert!(SparseRow::from_parts(3, vec![Entry { col: 2, count: 1 }, Entry { col: 1, count: 1 }], 5).is_none());
    // a column stored twice
    assert!(SparseRow::from_parts(3, vec![Entry { col: 2, count: 1 }, Entry { col: 2, count: 1 }], 5).is_none());
    // a stored zero
    assert!(SparseRow::from_parts(3, vec![Entry { col: 2, count: 0 }], 5).is_none());
    // a count above the document length
    assert!(SparseRow::from_parts(3, vec![Entry { col: 2, count: 4 }], 5).is_none());
}

#[test]
fn matrix_has_one_row_per_document() {
    let corpus = docs(&[&["a", "b"], &[], &["b", "b", "c"]]);
    let v = Vocabulary::from_documents(&corpus);
    let rows = compute_tfidf_matrix(&corpus, &v, &vec![1, 2, 1], 3);
    assert_eq!(rows.len(), 3);
    assert_eq!(cells(&rows[0]), vec![(0, 1), (1, 1)]);
    assert_eq!(rows[1].doc_len(), 0);
    assert!(rows[1].entries().is_empty());
    assert_eq!(cells(&rows[2]), vec![(1, 2), (2, 1)]);
    assert_eq!(rows[2].doc_len(), 3);
}

#[test]
fn doc_freq_counts_documents_not_occurrences() {
    let corpus = docs(&[&["a", "a", "a", "b"], &["a"], &["c", "b", "c"]]);
    let index = build_from_terms(&corpus);
    assert_eq!(index.vocabulary().terms(), &strings(&["a", "b", "c"]));
    assert_eq!(index.doc_freq(), &vec![2, 2, 1]);
    assert_eq!(index.num_docs(), 3);
    assert_eq!(index.rows().len(), 3);
    assert_eq!(cells(&index.rows()[0]), vec![(0, 3), (1, 1)]);
    assert_eq!(index.rows()[0].doc_len(), 4);
    assert_eq!(count_doc_freq(index.rows(), 3), vec![2, 2, 1]);
    assert_eq!(count_doc_freq(index.rows(), 2), vec![2, 2]);
    assert_eq!(count_doc_freq(index.rows(), 5), vec![2, 2, 1, 0, 0]);
    assert_eq!(count_doc_freq(&vec![], 2), vec![0, 0]);
}

#[test]
fn weight_parts_are_count_length_document_count_and_frequency() {
    let index = build_from_terms(&docs(&[&["a", "a", "b"], &["b"]]));
    let parts = index.term_weights(&index.rows()[0]).unwrap();
    // "b" is in both documents: its weight is zero and no cell is held for it
    assert_eq!(
        parts,
        vec![WeightParts { col: 0, count: 2, doc_len: 3, num_docs: 2, doc_freq: 1 }]
    );
    let tf_idf: Vec<f64> = parts
        .iter()
        .map(|p| (p.count as f64 / p.doc_len as f64) * (p.num_docs as f64 / p.doc_freq as f64).ln())
        .collect();
    assert_eq!(tf_idf, vec![2.0 / 3.0 * std::f64::consts::LN_2]);
    let query = project_terms(
        index.vocabulary(),
        &strings(&["b", "a", "zzz"]),
        index.doc_freq(),
        index.num_docs(),
    );
    assert_eq!(
        index.term_weights(&query).unwrap(),
        vec![WeightParts { col: 0, count: 1, doc_len: 3, num_docs: 2, doc_freq: 1 }]
    );
}

#[test]
fn weight_parts_are_refused_for_a_row_of_a_wider_vocabulary() {
    let index = build_from_terms(&docs(&[&["a"]]));
    let wide = Vocabulary::from_terms(strings(&["a", "b", "c"])).unwrap();
    let row = project_terms(&wide, &strings(&["c"]), &vec![1, 1, 1], 2);
    assert!(index.term_weights(&row).is_none());
}

#[test]
fn term_in_every_document_has_frequency_equal_to_document_count() {
    let index = build_from_terms(&docs(&[&["nurs", "a"], &["nurs", "b"], &["nurs"]]));
    assert_eq!(index.vocabulary().index_of("nurs"), Some(0));
    assert_eq!(index.doc_freq()[0], index.num_docs());
    // its weight is ln(3 / 3) = 0: no row holds a cell for it
    for row in index.rows() {
        assert_eq!(row.count(0), 0);
    }
    assert_eq!(cells(&index.rows()[0]), vec![(1, 1)]);
    assert_eq!(index.rows()[0].doc_len(), 2);
    assert!(index.rows()[2].entries().is_empty());
    assert_eq!(index.rows()[2].doc_len(), 1);
}

#[test]
fn index_of_an_empty_catalog_is_empty() {
    let n = Normalizer::new().unwrap();
    let index = build_tfidf_index(&n, &vec![]);
    assert_eq!(index.num_docs(), 0);
    assert_eq!(index.vocabulary().len(), 0);
    assert!(index.doc_freq().is_empty());
    assert!(index.rows().is_empty());
}

#[test]
fn build_assigns_the_same_indices_and_frequencies_each_time() {
    let n = Normalizer::new().unwrap();
    let catalog = strings(&["Software Engineer", "Data Scientist", "Senior Software Developer", "Data Engineer"]);
    let a = build_tfidf_index(&n, &catalog);
    let b = build_tfidf_index(&n, &catalog);
    assert_eq!(a.vocabulary().terms(), b.vocabulary().terms());
    assert_eq!(a.doc_freq(), b.doc_freq());
    assert_eq!(a.num_docs(), b.num_docs());
    assert_eq!(a.vocabulary().terms(), &strings(&["softwar", "engin", "data", "scientist", "senior", "develop"]));
    assert_eq!(a.doc_freq(), &vec![2, 2, 2, 1, 1, 1]);
    for (x, y) in a.rows().iter().zip(b.rows().iter()) {
        assert_eq!(x.doc_len(), y.doc_len());
        assert_eq!(cells(x), cells(y));
    }
}

#[test]
fn index_from_parts_checks_the_parts_against_each_other() {
    let rows =
        |v: &Vocabulary| compute_tfidf_matrix(&docs(&[&["a", "b"], &["b"]]), v, &vec![1, 2], 2);
    let vocab = || Vocabulary::from_terms(strings(&["a", "b"])).unwrap();
    let v = vocab();
    let r = rows(&v);
    let index = TfidfIndex::from_parts(v, vec![1, 2], 2, r).unwrap();
    assert_eq!(index.doc_freq(), &vec![1, 2]);
    // a frequency that the rows contradict
    let v = vocab();
    let r = rows(&v);
    assert!(TfidfIndex::from_parts(v, vec![2, 2], 2, r).is_none());
    // a frequency missing
    let v = vocab();
    let r = rows(&v);
    assert!(TfidfIndex::from_parts(v, vec![1], 2, r).is_none());
    // a term that no row stores
    let three = Vocabulary::from_terms(strings(&["a", "b", "c"])).unwrap();
    let r = rows(&three);
    assert!(TfidfIndex::from_parts(three, vec![1, 2, 0], 2, r).is_none());
    // a document count that is not the number of rows
    let v = vocab();
    let r = rows(&v);
    assert!(TfidfIndex::from_parts(v, vec![1, 2], 3, r).is_none());
    // a row with a column outside the vocabulary
    let wide = Vocabulary::from_terms(strings(&["a", "b", "c"])).unwrap();
    let r = compute_tfidf_matrix(&docs(&[&["c"]]), &wide, &vec![1, 1, 1], 2);
    assert!(TfidfIndex::from_parts(vocab(), vec![0, 0], 1, r).is_none());
}

#[test]
fn matrix_holds_no_cell_for_a_term_of_every_document() {
    let corpus = docs(&[&["a", "b"], &["b", "c", "c"], &["b"]]);
    let v = Vocabulary::from_documents(&corpus);
    let counts = count_matrix(&corpus, &v);
    assert_eq!(cells(&counts[0]), vec![(0, 1), (1, 1)]);
    assert_eq!(cells(&counts[1]), vec![(1, 1), (2, 2)]);
    assert_eq!(cells(&counts[2]), vec![(1, 1)]);
    let doc_freq = count_doc_freq(&counts, v.len());
    assert_eq!(doc_freq, vec![1, 3, 1]);
    let rows = compute_tfidf_matrix(&corpus, &v, &doc_freq, 3);
    assert_eq!(cells(&rows[0]), vec![(0, 1)]);
    assert_eq!(cells(&rows[1]), vec![(2, 2)]);
    assert!(rows[2].entries().is_empty());
    assert_eq!(rows[1].doc_len(), 3);
    let index = build_from_terms(&corpus);
    for (built, computed) in index.rows().iter().zip(rows.iter()) {
        assert_eq!(built.entries(), computed.entries());
        assert_eq!(built.doc_len(), computed.doc_len());
    }
}

#[test]
fn weightless_cells_are_dropped_by_the_frequencies_given() {
    let v = Vocabulary::from_terms(strings(&["x", "y", "z"])).unwrap();
    let counted = count_terms(&v, &strings(&["x", "y", "y", "z"]));
    assert_eq!(cells(&drop_weightless(&counted, &vec![1, 4, 2], 4)), vec![(0, 1), (2, 1)]);
    assert_eq!(cells(&drop_weightless(&counted, &vec![4, 4, 4], 4)), vec![]);
    assert_eq!(cells(&drop_weightless(&counted, &vec![1, 2, 3], 4)), vec![(0, 1), (1, 2), (2, 1)]);
    // a frequency that is not listed counts as one
    assert_eq!(cells(&drop_weightless(&counted, &vec![2], 1)), vec![(0, 1)]);
    assert_eq!(cells(&drop_weightless(&counted, &vec![], 2)), vec![(0, 1), (1, 2), (2, 1)]);
    assert_eq!(drop_weightless(&counted, &vec![4, 4, 4], 4).doc_len(), 4);
}
