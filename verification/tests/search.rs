use proflow::search::{
    apply_threshold_filter, extract_hymn_number, normalize_name, parse_composite_query,
    score_entry, tokenize_query, LibraryCatalog, LibraryEntry,
};

fn entry(file_name: &str) -> LibraryEntry {
    let stem = file_name.strip_suffix(".pro").unwrap_or(file_name);
    let normalized = normalize_name(stem);
    LibraryEntry {
        file_name: stem.to_string(),
        normalized_name: normalized.clone(),
        file_name_lower: stem.to_lowercase(),
        normalized_lower: normalized.to_lowercase(),
    }
}

fn texts(parts: Vec<Vec<char>>) -> Vec<String> {
    parts.into_iter().map(|p| p.into_iter().collect()).collect()
}

#[test]
fn extracts_hymn_number_for_search_scoring() {
    assert_eq!(extract_hymn_number("#510 Jesus Shall Reign").as_deref(), Some("510"));
    assert_eq!(extract_hymn_number("Hymn #42 Amazing Grace").as_deref(), Some("42"));
    assert_eq!(extract_hymn_number("hymn 7").as_deref(), Some("7"));
    assert_eq!(extract_hymn_number("510 Title").as_deref(), Some("510"));
    assert_eq!(extract_hymn_number("Call to Worship"), None);
}

#[test]
fn hymn_number_needs_digits_after_the_hash_or_word() {
    assert_eq!(extract_hymn_number("# not a number #12").as_deref(), Some("12"));
    assert_eq!(extract_hymn_number("Hymnal 3"), None);
    assert_eq!(extract_hymn_number("  42 Songs").as_deref(), Some("42"));
}

#[test]
fn normalize_name_strips_catalog_prefixes_and_punctuation() {
    assert_eq!(normalize_name("[HYMN] 510 Jesus Shall Reign"), "Jesus Shall Reign");
    assert_eq!(normalize_name("#42 Amazing Grace"), "Amazing Grace");
    assert_eq!(normalize_name("Hymn 7: Be Thou My Vision"), "Be Thou My Vision");
    assert_eq!(normalize_name("Anthem - Joyful, Joyful!"), "Joyful Joyful");
    assert_eq!(normalize_name("  Lord's   Prayer  "), "Lord s Prayer");
}

#[test]
fn composite_queries_split_on_slash_then_and() {
    assert_eq!(
        texts(parse_composite_query("Doxology / Gloria Patri /")),
        vec!["Doxology".to_string(), "Gloria Patri".to_string()]
    );
    assert_eq!(
        texts(parse_composite_query("Creed and Prayer")),
        vec!["Creed".to_string(), "Prayer".to_string()]
    );
    assert_eq!(texts(parse_composite_query("Creed AND Prayer")), vec!["Creed AND Prayer".to_string()]);
    assert!(parse_composite_query("Amazing Grace").is_empty());
}

#[test]
fn tokens_drop_stop_words_and_single_bytes() {
    assert_eq!(
        texts(tokenize_query("the joy of the lord a")),
        vec!["joy".to_string(), "lord".to_string()]
    );
    assert_eq!(texts(tokenize_query("of the")), vec!["of the".to_string()]);
}

#[test]
fn threshold_filter_keeps_small_result_sets() {
    let few = vec![(20_000, 0), (50, 1)];
    assert_eq!(apply_threshold_filter(few.clone(), 5), few);
    let many: Vec<(i64, usize)> =
        (0..12).map(|i| (if i < 6 { 20_000 - i as i64 } else { 100 }, i)).collect();
    let kept = apply_threshold_filter(many, 5);
    assert_eq!(kept.len(), 6);
    assert!(kept.iter().all(|(score, _)| *score >= 500));
}

#[test]
fn exact_titles_outrank_partial_matches() {
    let catalog = LibraryCatalog {
        entries: vec![
            entry("Amazing Love.pro"),
            entry("[HYMN] 378 Amazing Grace.pro"),
            entry("Grace Alone.pro"),
        ],
    };
    let results = catalog.find_matches("Amazing Grace", 10);
    assert!(!results.is_empty());
    assert_eq!(results[0].normalized_name, "Amazing Grace");
    assert!(catalog.find_matches("   ", 10).is_empty());
    assert_eq!(catalog.find_matches("Amazing Grace", 1).len(), 1);
}

#[test]
fn hymn_numbers_find_numbered_files() {
    let catalog = LibraryCatalog {
        entries: vec![entry("Morning Has Broken.pro"), entry("Hymn #510 Jesus Shall Reign.pro")],
    };
    let results = catalog.find_matches("#510", 5);
    assert_eq!(results[0].file_name, "Hymn #510 Jesus Shall Reign");
}

#[test]
fn scoring_keeps_weak_but_qualified_entries_at_a_floor() {
    let e = entry("Benediction.pro");
    let tokens = tokenize_query("bene");
    let score = score_entry(&e, "bene", "bene", "bene", &None, &Vec::new(), &tokens)
        .expect("prefix match is kept");
    assert!(score >= 15_000);
    let none = score_entry(&e, "zzz", "zzz", "zzz", &None, &Vec::new(), &tokenize_query("zzz"));
    assert_eq!(none, None);
}
