use quotebot::quote::{Quote, QuoteEntry};

// The deployment builds the map from a bundled JSON document of
// `{"name": ..., "file": ...}` objects; the loaded map must hand back
// exactly the pairs that the document holds.
#[test]
fn loaded_map_round_trips_the_json_document() {
    let json = r#"[
        {"name": "legendary", "file": "legendary.png"},
        {"name": "gogogo", "file": "gogogo.png"},
        {"name": "nice try", "file": "nice_try.png"}
    ]"#;
    let doc: serde_json::Value = serde_json::from_str(json).unwrap();
    let mut entries: Vec<QuoteEntry> = Vec::new();
    let mut pairs: Vec<(String, String)> = Vec::new();
    for item in doc.as_array().unwrap() {
        let name = item["name"].as_str().unwrap().to_string();
        let file = item["file"].as_str().unwrap().to_string();
        pairs.push((name.clone(), file.clone()));
        entries.push(QuoteEntry { name, file });
    }
    let q = Quote::new(entries);
    assert_eq!(q.len(), pairs.len());
    for (name, file) in &pairs {
        assert_eq!(q.lookup(name), Some(file));
    }
}
