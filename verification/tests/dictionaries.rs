use wikidata_index::api::string_to_id::StringToId as LoadedDictionary;
use wikidata_index::indexer::string_to_id::StringToId;

#[test]
fn numbering_starts_at_one_and_reuses_numbers() {
    let mut d = StringToId::new();
    assert_eq!(d.next_id(), 0);
    assert_eq!(d.get("en".to_string()), 1);
    assert_eq!(d.get("fr".to_string()), 2);
    assert_eq!(d.get("en".to_string()), 1);
    assert_eq!(d.get("ja".to_string()), 3);
    assert_eq!(d.next_id(), 3);
    assert_eq!(
        d.entries(),
        vec![("en".to_string(), 1), ("fr".to_string(), 2), ("ja".to_string(), 3)]
    );
}

#[test]
fn loaded_dictionary_gives_numbers_and_texts() {
    let entries = vec![("en".to_string(), 1), ("fr".to_string(), 2)];
    let d = LoadedDictionary::from_parts(entries, 2, Vec::new());
    assert_eq!(d.get("en".to_string()), 1);
    assert_eq!(d.get("fr".to_string()), 2);
    assert_eq!(d.get_string(1), "en");
    assert_eq!(d.get_string(2), "fr");
    let mut keys = d.keys();
    keys.sort();
    assert_eq!(keys, vec!["en".to_string(), "fr".to_string()]);
}

#[test]
fn unknown_number_is_written_in_decimal() {
    let d = LoadedDictionary::from_parts(vec![("en".to_string(), 1)], 1, Vec::new());
    assert_eq!(d.get_string(77), "77");
    let empty = LoadedDictionary::new();
    assert_eq!(empty.get_string(0), "0");
    assert!(empty.keys().is_empty());
}

#[test]
fn map_entries_win_over_saved_reverse_pairs() {
    let d = LoadedDictionary::from_parts(
        vec![("de".to_string(), 5)],
        5,
        vec![(5, "stale".to_string()), (9, "nine".to_string())],
    );
    assert_eq!(d.get_string(5), "de");
    assert_eq!(d.get_string(9), "nine");
}

#[test]
fn saved_dictionary_reloads() {
    let mut d = StringToId::new();
    for lang in ["en", "fr", "en", "zh", "fr", "de"] {
        d.get(lang.to_string());
    }
    let loaded = LoadedDictionary::from_parts(d.entries(), d.next_id(), Vec::new());
    for lang in ["en", "fr", "zh", "de"] {
        let n = d.get(lang.to_string());
        assert_eq!(loaded.get(lang.to_string()), n);
        assert_eq!(loaded.get_string(n), lang);
    }
}

#[test]
fn loaded_dictionary_knows_its_texts() {
    let d = LoadedDictionary::from_parts(vec![("en".to_string(), 1)], 1, Vec::new());
    assert!(d.contains_key("en"));
    assert!(!d.contains_key("fr"));
}

#[test]
fn numbering_a_list() {
    let list: Vec<String> = ["en", "fr", "en", "ja"].iter().map(|s| s.to_string()).collect();
    let d = StringToId::from_list(&list);
    assert_eq!(d.next_id(), 3);
    assert_eq!(
        d.entries(),
        vec![("en".to_string(), 1), ("fr".to_string(), 2), ("ja".to_string(), 3)]
    );
    assert_eq!(StringToId::from_list(&Vec::new()).next_id(), 0);
}
