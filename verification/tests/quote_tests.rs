use quotebot::quote::{Quote, QuoteEntry};

fn entry(name: &str, file: &str) -> QuoteEntry {
    QuoteEntry { name: name.to_string(), file: file.to_string() }
}

fn sample() -> Quote {
    Quote::new(vec![
        entry("legendary", "legendary.png"),
        entry("gogogo", "gogogo.png"),
        entry("nice try", "nice_try.png"),
        entry("ogres", "ogres.png"),
    ])
}

#[test]
fn lookup_finds_registered_file() {
    let q = sample();
    assert_eq!(q.lookup("gogogo"), Some(&"gogogo.png".to_string()));
    assert_eq!(q.lookup("legendary"), Some(&"legendary.png".to_string()));
}

#[test]
fn lookup_misses_unknown_name() {
    let q = sample();
    assert_eq!(q.lookup("no such quote"), None);
    assert!(!q.contains_key("no such quote"));
    assert!(q.contains_key("ogres"));
}

#[test]
fn lookup_is_exact_not_normalized() {
    // Only the autocomplete query is normalized; the lookup key is not.
    let q = sample();
    assert_eq!(q.lookup("GoGoGo"), None);
    assert_eq!(q.lookup("nicetry"), None);
    assert_eq!(q.lookup("nice try"), Some(&"nice_try.png".to_string()));
}

#[test]
fn later_entry_overwrites_earlier_name() {
    let q = Quote::new(vec![
        entry("gg", "old.png"),
        entry("hm", "hm.png"),
        entry("gg", "new.png"),
    ]);
    assert_eq!(q.lookup("gg"), Some(&"new.png".to_string()));
    assert_eq!(q.len(), 2);
}

#[test]
fn insert_adds_and_replaces() {
    let mut q = Quote::default();
    assert_eq!(q.len(), 0);
    q.insert("b".to_string(), "b.png".to_string());
    q.insert("a".to_string(), "a.png".to_string());
    assert_eq!(q.len(), 2);
    assert_eq!(q.lookup("a"), Some(&"a.png".to_string()));
    q.insert("a".to_string(), "a2.png".to_string());
    assert_eq!(q.len(), 2);
    assert_eq!(q.lookup("a"), Some(&"a2.png".to_string()));
}

#[test]
fn autocomplete_filters_by_substring() {
    let q = sample();
    assert_eq!(q.autocomplete("go"), vec!["gogogo".to_string()]);
    assert_eq!(q.autocomplete("o"), vec!["gogogo".to_string(), "ogres".to_string()]);
    assert_eq!(
        q.autocomplete("e"),
        vec!["legendary".to_string(), "nice try".to_string(), "ogres".to_string()]
    );
    assert_eq!(q.autocomplete("legend"), vec!["legendary".to_string()]);
    assert_eq!(q.autocomplete("zzz"), Vec::<String>::new());
}

#[test]
fn autocomplete_normalizes_the_query() {
    let q = sample();
    // The query is ASCII-lowercased and its spaces removed before matching.
    assert_eq!(q.autocomplete("G O"), vec!["gogogo".to_string()]);
    assert_eq!(q.autocomplete("O"), vec!["gogogo".to_string(), "ogres".to_string()]);
    assert_eq!(q.autocomplete("  L E GEND  "), vec!["legendary".to_string()]);
    // The names themselves are not normalized: a spaced name only matches a
    // query whose normal form still occurs in it verbatim.
    assert_eq!(q.autocomplete("nice try"), Vec::<String>::new());
    assert_eq!(q.autocomplete("TRY"), vec!["nice try".to_string()]);
}

#[test]
fn autocomplete_empty_query_lists_all_names_sorted() {
    let q = sample();
    assert_eq!(
        q.autocomplete(""),
        vec![
            "gogogo".to_string(),
            "legendary".to_string(),
            "nice try".to_string(),
            "ogres".to_string(),
        ]
    );
}

#[test]
fn default_map_is_empty() {
    let q = Quote::default();
    assert_eq!(q.lookup("anything"), None);
    assert_eq!(q.autocomplete(""), Vec::<String>::new());
}
