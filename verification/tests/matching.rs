use tame::index::{build_tfidf_index, TfidfIndex};
use tame::matcher::{
    best_match, match_scores, project_queries, row_weighs_nothing, settle_scores, tame_logic,
    MatchError,
};
use tame::matrix::SparseRow;
use tame::text::Normalizer;

fn strings(items: &[&str]) -> Vec<String> {
    items.iter().map(|s| s.to_string()).collect()
}

fn weights(index: &TfidfIndex, row: &SparseRow) -> Vec<(u64, f64)> {
    index
        .term_weights(row)
        .unwrap()
        .iter()
        .map(|cell| {
            let tf = cell.count as f64 / cell.doc_len as f64;
            let idf = (cell.num_docs as f64 / cell.doc_freq as f64).ln();
            (cell.col, tf * idf)
        })
        .collect()
}

fn dot(a: &[(u64, f64)], b: &[(u64, f64)]) -> f64 {
    let mut sum = 0.0;
    for (ca, wa) in a {
        for (cb, wb) in b {
            if ca == cb {
                sum += wa * wb;
            }
        }
    }
    sum
}

fn cosine(query: &[(u64, f64)], doc: &[(u64, f64)]) -> f64 {
    let norm_q = dot(query, query).sqrt();
    let norm_d = dot(doc, doc).sqrt();
    if norm_q > 0.0 && norm_d > 0.0 {
        dot(query, doc) / (norm_d * norm_q)
    } else {
        0.0
    }
}

fn key(score: f64) -> u64 {
    if score > 0.0 {
        score.to_bits()
    } else {
        0
    }
}

fn similarities(index: &TfidfIndex, queries: &[SparseRow]) -> Vec<Vec<f64>> {
    let docs: Vec<Vec<(u64, f64)>> = index.rows().iter().map(|r| weights(index, r)).collect();
    queries
        .iter()
        .map(|q| {
            let wq = weights(index, q);
            docs.iter().map(|d| cosine(&wq, d)).collect()
        })
        .collect()
}

fn keys(scores: &[Vec<f64>]) -> Vec<Vec<u64>> {
    scores.iter().map(|row| row.iter().map(|s| key(*s)).collect()).collect()
}

#[test]
fn best_match_takes_the_highest_score() {
    assert_eq!(best_match(&vec![3, 9, 4]), 1);
    assert_eq!(best_match(&vec![7]), 0);
    assert_eq!(best_match(&vec![1, 2, 3, 4]), 3);
}

#[test]
fn best_match_takes_the_lowest_index_among_equal_scores() {
    assert_eq!(best_match(&vec![2, 8, 8, 1, 8]), 1);
    assert_eq!(best_match(&vec![5, 5, 5]), 0);
}

#[test]
fn best_match_of_all_zero_scores_is_the_first_row() {
    assert_eq!(best_match(&vec![0, 0, 0, 0]), 0);
    assert_eq!(best_match(&vec![]), 0);
}

#[test]
fn exact_title_is_matched_with_similarity_one() {
    let n = Normalizer::new().unwrap();
    let titles = strings(&["Software Engineer", "Data Scientist"]);
    let index = build_tfidf_index(&n, &titles);
    let queries = strings(&["software engineer"]);
    let rows = project_queries(&n, &index, &queries);
    let scores = similarities(&index, &rows);
    assert!((scores[0][0] - 1.0).abs() < 1e-12);
    assert_eq!(scores[0][1], 0.0);
    let table = tame_logic(&index, queries, &titles, &rows, &keys(&scores)).unwrap();
    assert_eq!(table.get("software engineer"), Some(&"Software Engineer".to_string()));
    assert_eq!(table.len(), 1);
}

#[test]
fn out_of_vocabulary_query_falls_to_the_first_title_with_similarity_zero() {
    let n = Normalizer::new().unwrap();
    let titles = strings(&["Registered Nurse"]);
    let index = build_tfidf_index(&n, &titles);
    let queries = strings(&["xyz123 qqq"]);
    let rows = project_queries(&n, &index, &queries);
    assert_eq!(rows[0].doc_len(), 2);
    assert!(rows[0].entries().is_empty());
    let scores = similarities(&index, &rows);
    assert_eq!(scores, vec![vec![0.0]]);
    let table = tame_logic(&index, queries, &titles, &rows, &keys(&scores)).unwrap();
    assert_eq!(table.get("xyz123 qqq"), Some(&"Registered Nurse".to_string()));
}

#[test]
fn out_of_vocabulary_query_falls_to_the_lowest_indexed_title() {
    let n = Normalizer::new().unwrap();
    let titles = strings(&["Registered Nurse", "Data Scientist", "Software Engineer"]);
    let index = build_tfidf_index(&n, &titles);
    let queries = strings(&["zzz", ""]);
    let rows = project_queries(&n, &index, &queries);
    let scores = similarities(&index, &rows);
    assert_eq!(scores, vec![vec![0.0, 0.0, 0.0], vec![0.0, 0.0, 0.0]]);
    let table = tame_logic(&index, queries, &titles, &rows, &keys(&scores)).unwrap();
    assert_eq!(table.get("zzz"), Some(&"Registered Nurse".to_string()));
    assert_eq!(table.get(""), Some(&"Registered Nurse".to_string()));
}

#[test]
fn identical_queries_get_the_same_title() {
    let n = Normalizer::new().unwrap();
    let titles = strings(&["Software Engineer", "Data Scientist", "Registered Nurse"]);
    let index = build_tfidf_index(&n, &titles);
    let queries = strings(&["data scientists", "data scientists"]);
    let rows = project_queries(&n, &index, &queries);
    let scores = similarities(&index, &rows);
    assert_eq!(scores[0], scores[1]);
    let table = tame_logic(&index, queries, &titles, &rows, &keys(&scores)).unwrap();
    assert_eq!(table.len(), 1);
    assert_eq!(table.get("data scientists"), Some(&"Data Scientist".to_string()));
}

#[test]
fn query_shares_the_row_of_a_title_with_the_same_terms() {
    let n = Normalizer::new().unwrap();
    let titles = strings(&["Senior Data Engineer", "Data Scientist"]);
    let index = build_tfidf_index(&n, &titles);
    let rows = project_queries(&n, &index, &strings(&["ENGINEERING, data (senior)"]));
    let title_row = &index.rows()[0];
    assert_eq!(rows[0].doc_len(), title_row.doc_len());
    assert_eq!(rows[0].entries(), title_row.entries());
    let scores = similarities(&index, &rows);
    assert!((scores[0][0] - 1.0).abs() < 1e-12);
    assert!(scores[0][1] < scores[0][0]);
}

#[test]
fn repeated_terms_in_proportion_keep_similarity_one() {
    let n = Normalizer::new().unwrap();
    let titles = strings(&["Data Engineer", "Software Engineer"]);
    let index = build_tfidf_index(&n, &titles);
    let rows = project_queries(&n, &index, &strings(&["data engineer engineer data data engineer"]));
    assert_eq!(rows[0].doc_len(), 6);
    let scores = similarities(&index, &rows);
    assert_eq!(scores[0][0], similarities(&index, &project_queries(&n, &index, &strings(&["data engineer"])))[0][0]);
    assert!((scores[0][0] - 1.0).abs() < 1e-12);
    assert_eq!(best_match(&keys(&scores)[0]), 0);
}

#[test]
fn a_term_of_every_title_weighs_nothing() {
    let n = Normalizer::new().unwrap();
    let titles = strings(&["Staff Nurse", "Head Nurse"]);
    let index = build_tfidf_index(&n, &titles);
    let rows = project_queries(&n, &index, &strings(&["nurse", "head"]));
    let scores = similarities(&index, &rows);
    // "nurse" is in both titles: its weight is ln(2 / 2) = 0, the query is a zero vector
    assert_eq!(scores[0], vec![0.0, 0.0]);
    assert!(scores[1][1] > 0.0);
    assert_eq!(scores[1][0], 0.0);
    let table =
        tame_logic(&index, strings(&["nurse", "head"]), &titles, &rows, &keys(&scores)).unwrap();
    assert_eq!(table.get("nurse"), Some(&"Staff Nurse".to_string()));
    assert_eq!(table.get("head"), Some(&"Head Nurse".to_string()));
}

#[test]
fn a_later_repeat_of_a_query_decides_its_entry() {
    let titles = strings(&["A", "B", "C"]);
    let queries = strings(&["q", "r", "q"]);
    let scores = vec![vec![9, 1, 1], vec![1, 9, 1], vec![1, 1, 9]];
    let table = match_scores(queries, &titles, &scores).unwrap();
    assert_eq!(table.len(), 2);
    assert_eq!(table.get("q"), Some(&"C".to_string()));
    assert_eq!(table.get("r"), Some(&"B".to_string()));
    assert_eq!(table.get("s"), None);
}

#[test]
fn scores_that_do_not_fit_the_batch_are_refused() {
    let titles = strings(&["A", "B"]);
    let r = match_scores(strings(&["q"]), &titles, &vec![]);
    assert_eq!(r.err(), Some(MatchError::ScoreShape));
    let r = match_scores(strings(&["q"]), &titles, &vec![vec![1, 2, 3]]);
    assert_eq!(r.err(), Some(MatchError::ScoreShape));
    let r = match_scores(strings(&["q", "r"]), &titles, &vec![vec![1, 2], vec![1]]);
    assert_eq!(r.err(), Some(MatchError::ScoreShape));
    let r = match_scores(strings(&[]), &titles, &vec![vec![1, 2]]);
    assert_eq!(r.err(), Some(MatchError::ScoreShape));
}

#[test]
fn queries_without_a_catalog_are_refused() {
    let r = match_scores(strings(&["q"]), &vec![], &vec![vec![]]);
    assert_eq!(r.err(), Some(MatchError::EmptyCatalog));
}

#[test]
fn an_empty_batch_gives_an_empty_mapping() {
    let table = match_scores(vec![], &strings(&["A"]), &vec![]).unwrap();
    assert_eq!(table.len(), 0);
    let table = match_scores(vec![], &vec![], &vec![]).unwrap();
    assert_eq!(table.len(), 0);
}

#[test]
fn unknown_query_falls_to_the_first_title_whatever_scores_are_handed_in() {
    let n = Normalizer::new().unwrap();
    let titles = strings(&["Registered Nurse", "Data Scientist", "Software Engineer"]);
    let index = build_tfidf_index(&n, &titles);
    let queries = strings(&["zzz qqq", "data"]);
    let rows = project_queries(&n, &index, &queries);
    let handed_in = vec![vec![1, 7, 9], vec![1, 7, 2]];
    assert_eq!(settle_scores(&index, &rows, &handed_in), Some(vec![vec![0, 0, 0], vec![1, 7, 2]]));
    let table = tame_logic(&index, queries, &titles, &rows, &handed_in).unwrap();
    assert_eq!(table.get("zzz qqq"), Some(&"Registered Nurse".to_string()));
    assert_eq!(table.get("data"), Some(&"Data Scientist".to_string()));
}

#[test]
fn a_row_weighs_nothing_when_its_terms_are_in_every_document() {
    let n = Normalizer::new().unwrap();
    let titles = strings(&["Staff Nurse", "Head Nurse", "Nurse"]);
    let index = build_tfidf_index(&n, &titles);
    let rows = project_queries(&n, &index, &strings(&["nurse nurse", "head nurse", "", "unknown"]));
    assert_eq!(row_weighs_nothing(&index, &rows[0]), Some(true));
    assert_eq!(row_weighs_nothing(&index, &rows[1]), Some(false));
    assert_eq!(row_weighs_nothing(&index, &rows[2]), Some(true));
    assert_eq!(row_weighs_nothing(&index, &rows[3]), Some(true));
    // the third title holds only the term of every title: nothing scores against it
    let handed_in = vec![vec![5, 5, 5], vec![3, 4, 5], vec![1, 1, 1], vec![2, 2, 2]];
    assert_eq!(
        settle_scores(&index, &rows, &handed_in),
        Some(vec![vec![0, 0, 0], vec![3, 4, 0], vec![0, 0, 0], vec![0, 0, 0]])
    );
    let scores = similarities(&index, &rows);
    assert_eq!(settle_scores(&index, &rows, &keys(&scores)), Some(keys(&scores)));
}

#[test]
fn scores_are_not_settled_against_an_index_they_do_not_fit() {
    let n = Normalizer::new().unwrap();
    let index = build_tfidf_index(&n, &strings(&["Staff Nurse", "Head Nurse"]));
    let rows = project_queries(&n, &index, &strings(&["head"]));
    assert_eq!(settle_scores(&index, &rows, &vec![vec![1, 2, 3]]), None);
    assert_eq!(settle_scores(&index, &rows, &vec![]), None);
    assert_eq!(settle_scores(&index, &rows, &vec![vec![1, 2]]), Some(vec![vec![1, 2]]));
    let wide = build_tfidf_index(&n, &strings(&["a b c d e", "f"]));
    let foreign = project_queries(&n, &wide, &strings(&["e"]));
    assert_eq!(row_weighs_nothing(&index, &foreign[0]), None);
    assert_eq!(settle_scores(&index, &foreign, &vec![vec![1, 2]]), None);
}

#[test]
fn a_batch_that_does_not_belong_to_the_index_is_refused() {
    let n = Normalizer::new().unwrap();
    let titles = strings(&["Staff Nurse", "Head Nurse"]);
    let index = build_tfidf_index(&n, &titles);
    let queries = strings(&["head"]);
    let rows = project_queries(&n, &index, &queries);
    // the index of another catalog
    let other = build_tfidf_index(&n, &strings(&["Staff Nurse"]));
    let r = tame_logic(&other, queries.clone(), &titles, &rows, &vec![vec![1, 2]]);
    assert_eq!(r.err(), Some(MatchError::IndexMismatch));
    // a row of another index
    let wide = build_tfidf_index(&n, &strings(&["a b c d e", "f"]));
    let foreign = project_queries(&n, &wide, &strings(&["e"]));
    let r = tame_logic(&index, queries.clone(), &titles, &foreign, &vec![vec![1, 2]]);
    assert_eq!(r.err(), Some(MatchError::IndexMismatch));
    // no row for the query
    let r = tame_logic(&index, queries.clone(), &titles, &vec![], &vec![vec![1, 2]]);
    assert_eq!(r.err(), Some(MatchError::ScoreShape));
    // too few scores
    let r = tame_logic(&index, queries.clone(), &titles, &rows, &vec![vec![1]]);
    assert_eq!(r.err(), Some(MatchError::ScoreShape));
    // queries, but an empty catalog
    let empty = build_tfidf_index(&n, &vec![]);
    let rows = project_queries(&n, &empty, &queries);
    let r = tame_logic(&empty, queries.clone(), &vec![], &rows, &vec![vec![]]);
    assert_eq!(r.err(), Some(MatchError::EmptyCatalog));
    let r = tame_logic(&index, queries, &titles, &project_queries(&n, &index, &strings(&["head"])), &vec![vec![1, 2]]);
    assert_eq!(r.unwrap().get("head"), Some(&"Head Nurse".to_string()));
}
