use tame::text::{stem_tokens, Normalizer};

fn strings(items: &[&str]) -> Vec<String> {
    items.iter().map(|s| s.to_string()).collect()
}

#[test]
fn normalize_lowercases_and_stems() {
    let n = Normalizer::new().unwrap();
    let terms = n.tokenize_and_stem("Software Engineers, running!");
    assert_eq!(terms, strings(&["softwar", "engin", "run"]));
}

#[test]
fn normalize_splits_on_non_word_characters() {
    let n = Normalizer::new().unwrap();
    let terms = n.tokenize_and_stem("c++/java-dev (sr.)  x_y z9");
    assert_eq!(terms, strings(&["c", "java", "dev", "sr", "x_i", "z9"]));
}

#[test]
fn normalize_empty_and_symbol_only_text_has_no_terms() {
    let n = Normalizer::new().unwrap();
    assert!(n.tokenize_and_stem("").is_empty());
    assert!(n.tokenize_and_stem(" \t -- !!! ").is_empty());
}

#[test]
fn normalize_splits_at_a_separator_into_the_terms_of_both_sides() {
    let n = Normalizer::new().unwrap();
    let front = "senior data";
    let back = "engineer ii";
    let mut both = n.tokenize_and_stem(front);
    both.extend(n.tokenize_and_stem(back));
    for separator in ["/", " ", "-", "\n", "."] {
        let whole = format!("{}{}{}", front, separator, back);
        assert_eq!(n.tokenize_and_stem(&whole), both);
    }
    assert_eq!(both, strings(&["senior", "data", "engin", "ii"]));
}

#[test]
fn normalize_keeps_a_run_of_word_characters_whole() {
    let n = Normalizer::new().unwrap();
    assert_eq!(n.tokenize_and_stem("ab_12cd").len(), 1);
    assert_eq!(n.tokenize_and_stem("ab_12 cd").len(), 2);
    assert_eq!(n.tokenize_and_stem("  ab..cd  ").len(), 2);
}

#[test]
fn normalizer_is_made_from_the_word_pattern() {
    assert!(Normalizer::new().is_some());
}

#[test]
fn normalize_twice_gives_identical_terms() {
    let n = Normalizer::new().unwrap();
    let text = "Senior Registered Nurses & Data Scientists";
    assert_eq!(n.tokenize_and_stem(text), n.tokenize_and_stem(text));
    let other = Normalizer::new().unwrap();
    assert_eq!(n.tokenize_and_stem(text), other.tokenize_and_stem(text));
}

#[test]
fn normalize_lowercases_every_letter() {
    let n = Normalizer::new().unwrap();
    assert_eq!(n.tokenize_and_stem("NURSE"), n.tokenize_and_stem("nurse"));
    assert_eq!(n.tokenize_and_stem("ÉCOLE"), n.tokenize_and_stem("école"));
    assert_eq!(n.tokenize_and_stem("ÉCOLE"), strings(&["école"]));
    assert_eq!(n.tokenize_and_stem("Ärzte ÖL ŁÓDŹ"), n.tokenize_and_stem("ärzte öl łódź"));
    for term in n.tokenize_and_stem("Senior ÉCOLE Ärzte DATA Ωmega") {
        assert!(!term.chars().any(|c| c.is_uppercase()), "{}", term);
    }
}

#[test]
fn normalize_takes_any_unicode_text() {
    let n = Normalizer::new().unwrap();
    let text = "naïve café 東京タワー İstanbul ǅemal e\u{301}cole straße 𝒳 ١٢٣ a\u{200d}b ﬁnance ÀÉÎÕÜ";
    let terms = n.tokenize_and_stem(text);
    assert_eq!(terms.len(), 12);
    assert_eq!(terms, n.tokenize_and_stem(text));
}

#[test]
fn normalize_all_keeps_one_document_per_text() {
    let n = Normalizer::new().unwrap();
    let docs = n.normalize_all(&strings(&["Software Engineer", "", "Data Scientist"]));
    assert_eq!(docs.len(), 3);
    assert_eq!(docs[0], strings(&["softwar", "engin"]));
    assert!(docs[1].is_empty());
    assert_eq!(docs[2], n.tokenize_and_stem("Data Scientist"));
}

#[test]
fn stem_tokens_lowercases_before_stemming() {
    let terms = stem_tokens(&strings(&["Engineers", "RUNNING", "nurse", "ÉCOLES"]));
    assert_eq!(terms, strings(&["engin", "run", "nurs", "école"]));
}
