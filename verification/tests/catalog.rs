use tame::catalog::{
    get_standardized_titles, load_standarized_values, read_catalog, standard_title_to_bls_title,
    CatalogEntry, CatalogError, RawEntry,
};

fn entry(name: &str, aliases: &[&str]) -> CatalogEntry {
    CatalogEntry {
        title_name: name.to_string(),
        other_titles: aliases.iter().map(|s| s.to_string()).collect(),
    }
}

fn found(name: Option<&str>, aliases: Option<&[Option<&str>]>) -> RawEntry {
    RawEntry {
        title_name: name.map(|s| s.to_string()),
        other_titles: aliases.map(|items| items.iter().map(|i| i.map(|s| s.to_string())).collect()),
    }
}

fn sample() -> Vec<CatalogEntry> {
    vec![
        entry("Software Developers", &["Software Engineer", "Programmer"]),
        entry("Registered Nurses", &[]),
        entry("Data Scientists", &["Data Scientist", "Programmer"]),
    ]
}

#[test]
fn corpus_is_every_alias_in_catalog_order() {
    let titles = load_standarized_values(&sample());
    assert_eq!(titles, vec!["Software Engineer", "Programmer", "Data Scientist", "Programmer"]);
    assert_eq!(get_standardized_titles(&sample()), titles);
}

#[test]
fn corpus_of_an_empty_catalog_is_empty() {
    assert!(load_standarized_values(&vec![]).is_empty());
}

#[test]
fn alias_leads_back_to_the_name_of_its_entry() {
    let catalog = sample();
    assert_eq!(standard_title_to_bls_title(&catalog, "Software Engineer"), "Software Developers");
    assert_eq!(standard_title_to_bls_title(&catalog, "Data Scientist"), "Data Scientists");
}

#[test]
fn name_leads_to_itself() {
    assert_eq!(standard_title_to_bls_title(&sample(), "Registered Nurses"), "Registered Nurses");
}

#[test]
fn alias_of_several_entries_takes_the_last_name() {
    assert_eq!(standard_title_to_bls_title(&sample(), "Programmer"), "Data Scientists");
}

#[test]
fn unknown_title_is_returned_unchanged() {
    assert_eq!(standard_title_to_bls_title(&sample(), "Astronaut"), "Astronaut");
    assert_eq!(standard_title_to_bls_title(&vec![], ""), "");
}

#[test]
fn well_formed_entries_are_taken_as_they_are() {
    let catalog = read_catalog(&vec![
        found(Some("Software Developers"), Some(&[Some("Software Engineer"), Some("Programmer")])),
        found(Some("Registered Nurses"), Some(&[])),
    ])
    .unwrap();
    assert_eq!(catalog.len(), 2);
    assert_eq!(catalog[0].title_name, "Software Developers");
    assert_eq!(catalog[0].other_titles, vec!["Software Engineer", "Programmer"]);
    assert_eq!(catalog[1].title_name, "Registered Nurses");
    assert!(catalog[1].other_titles.is_empty());
    assert!(read_catalog(&vec![]).unwrap().is_empty());
}

#[test]
fn the_first_malformed_entry_refuses_the_catalog() {
    let good = || found(Some("A"), Some(&[Some("a")]));
    // no name
    let r = read_catalog(&vec![good(), found(None, Some(&[Some("b")])), found(None, None)]);
    assert_eq!(r.err(), Some(CatalogError::MalformedEntry(1)));
    // no alias list
    let r = read_catalog(&vec![found(Some("B"), None)]);
    assert_eq!(r.err(), Some(CatalogError::MalformedEntry(0)));
    // an alias that is no string
    let r = read_catalog(&vec![good(), good(), found(Some("C"), Some(&[Some("c"), None]))]);
    assert_eq!(r.err(), Some(CatalogError::MalformedEntry(2)));
}
