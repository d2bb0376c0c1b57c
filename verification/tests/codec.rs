use tame::codec::{deserialize, load_or_build, serialize, DecodeError};
use tame::index::{build_tfidf_index, TfidfIndex};
use tame::text::Normalizer;

fn strings(items: &[&str]) -> Vec<String> {
    items.iter().map(|s| s.to_string()).collect()
}

fn same(a: &TfidfIndex, b: &TfidfIndex) -> bool {
    a.vocabulary().terms() == b.vocabulary().terms()
        && a.doc_freq() == b.doc_freq()
        && a.num_docs() == b.num_docs()
        && a.rows().len() == b.rows().len()
        && a.rows().iter().zip(b.rows().iter()).all(|(x, y)| x.doc_len() == y.doc_len() && x.entries() == y.entries())
}

fn u64s(values: &[u64]) -> Vec<u8> {
    values.iter().flat_map(|v| v.to_le_bytes()).collect()
}

#[test]
fn serialized_layout_is_little_endian_and_length_prefixed() {
    let n = Normalizer::new().unwrap();
    let index = build_tfidf_index(&n, &strings(&["run", "walk run run"]));
    let mut expected = u64s(&[2, 2, 3]);
    expected.extend_from_slice(b"run");
    expected.extend(u64s(&[4]));
    expected.extend_from_slice(b"walk");
    expected.extend(u64s(&[2, 1]));
    expected.extend(u64s(&[1, 0]));
    expected.extend(u64s(&[3, 1, 1, 1]));
    assert_eq!(serialize(&index), expected);
}

#[test]
fn serialized_empty_index_is_two_zero_words() {
    let n = Normalizer::new().unwrap();
    let index = build_tfidf_index(&n, &vec![]);
    assert_eq!(serialize(&index), u64s(&[0, 0]));
    let back = deserialize(&u64s(&[0, 0])).unwrap();
    assert!(same(&index, &back));
}

#[test]
fn round_trip_preserves_every_part_of_the_index() {
    let n = Normalizer::new().unwrap();
    let catalog = strings(&["Software Engineer", "Data Scientist", "Registered Nurse", "Café Owner — naïve", "", "Data data DATA engineer"]);
    let index = build_tfidf_index(&n, &catalog);
    let bytes = serialize(&index);
    let back = deserialize(&bytes).unwrap();
    assert!(same(&index, &back));
    assert_eq!(serialize(&back), bytes);
    assert_eq!(back.vocabulary().index_of("nurs"), index.vocabulary().index_of("nurs"));
}

#[test]
fn building_twice_serializes_to_identical_bytes() {
    let catalog = strings(&["Software Engineer", "Data Scientist", "Senior Software Engineer"]);
    let first = serialize(&build_tfidf_index(&Normalizer::new().unwrap(), &catalog));
    let second = serialize(&build_tfidf_index(&Normalizer::new().unwrap(), &catalog));
    assert_eq!(first, second);
}

#[test]
fn truncated_bytes_are_malformed() {
    let n = Normalizer::new().unwrap();
    let bytes = serialize(&build_tfidf_index(&n, &strings(&["Software Engineer", "Data Scientist"])));
    for cut in 0..bytes.len() {
        assert_eq!(deserialize(&bytes[..cut].to_vec()).err(), Some(DecodeError::Malformed), "cut at {}", cut);
    }
}

#[test]
fn trailing_bytes_are_malformed() {
    let n = Normalizer::new().unwrap();
    let mut bytes = serialize(&build_tfidf_index(&n, &strings(&["Software Engineer"])));
    bytes.push(0);
    assert_eq!(deserialize(&bytes).err(), Some(DecodeError::Malformed));
}

#[test]
fn a_term_that_is_not_utf8_is_malformed() {
    let mut bytes = u64s(&[0, 1, 2]);
    bytes.extend_from_slice(&[0xff, 0xfe]);
    bytes.extend(u64s(&[0]));
    assert_eq!(deserialize(&bytes).err(), Some(DecodeError::Malformed));
}

#[test]
fn contradicting_parts_are_inconsistent() {
    // two documents, one term "a" held by the first: frequency 1, rows
    // (length 1, one cell (0, 1)) and (length 0, no cell)
    let parts = |df: u64, col: u64, count: u64| {
        let mut bytes = u64s(&[2, 1, 1]);
        bytes.extend_from_slice(b"a");
        bytes.extend(u64s(&[df, 1, 1, col, count, 0, 0]));
        bytes
    };
    assert!(deserialize(&parts(1, 0, 1)).is_ok());
    // a cell for a term of every document, whose weight is zero
    assert_eq!(deserialize(&parts(2, 0, 1)).err(), Some(DecodeError::Inconsistent));
    // a frequency of zero, and one above the document count
    assert_eq!(deserialize(&parts(0, 0, 1)).err(), Some(DecodeError::Inconsistent));
    assert_eq!(deserialize(&parts(3, 0, 1)).err(), Some(DecodeError::Inconsistent));
    // a column outside the vocabulary
    assert_eq!(deserialize(&parts(1, 1, 1)).err(), Some(DecodeError::Inconsistent));
    // a stored zero
    assert_eq!(deserialize(&parts(1, 0, 0)).err(), Some(DecodeError::Inconsistent));
    // a count above the document length
    assert_eq!(deserialize(&parts(1, 0, 2)).err(), Some(DecodeError::Inconsistent));
    // a frequency that the rows do not bear out
    let mut unused = u64s(&[2, 2, 1]);
    unused.extend_from_slice(b"a");
    unused.extend(u64s(&[1]));
    unused.extend_from_slice(b"b");
    unused.extend(u64s(&[1, 1, 1, 1, 0, 1, 0, 0]));
    assert_eq!(deserialize(&unused).err(), Some(DecodeError::Inconsistent));
    // a term of every document, with no cell: consistent
    let mut everywhere = u64s(&[2, 1, 1]);
    everywhere.extend_from_slice(b"a");
    everywhere.extend(u64s(&[2, 1, 0, 1, 0]));
    assert!(deserialize(&everywhere).is_ok());
    // the same term twice
    let mut twice = u64s(&[0, 2, 1]);
    twice.extend_from_slice(b"a");
    twice.extend(u64s(&[1]));
    twice.extend_from_slice(b"a");
    twice.extend(u64s(&[0, 0]));
    assert_eq!(deserialize(&twice).err(), Some(DecodeError::Inconsistent));
}

#[test]
fn load_or_build_builds_and_hands_back_the_bytes_when_nothing_is_cached() {
    let n = Normalizer::new().unwrap();
    let catalog = strings(&["Software Engineer", "Data Scientist"]);
    let loaded = load_or_build(None, &n, &catalog).unwrap();
    let fresh = build_tfidf_index(&n, &catalog);
    assert!(same(&loaded.index, &fresh));
    assert_eq!(loaded.to_store, Some(serialize(&fresh)));
}

#[test]
fn load_or_build_reads_cached_bytes_without_rebuilding() {
    let n = Normalizer::new().unwrap();
    let cached = serialize(&build_tfidf_index(&n, &strings(&["Registered Nurse"])));
    let loaded = load_or_build(Some(&cached), &n, &strings(&["Software Engineer", "Data Scientist"])).unwrap();
    assert_eq!(loaded.index.vocabulary().terms(), &strings(&["regist", "nurs"]));
    assert_eq!(loaded.index.num_docs(), 1);
    assert!(loaded.to_store.is_none());
}

#[test]
fn load_or_build_fails_on_corrupt_cached_bytes_instead_of_rebuilding() {
    let n = Normalizer::new().unwrap();
    let r = load_or_build(Some(&vec![1, 2, 3]), &n, &strings(&["Software Engineer"]));
    assert_eq!(r.err(), Some(DecodeError::Malformed));
}
