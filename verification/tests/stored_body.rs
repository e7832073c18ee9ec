use wikidata_index::api::storage::TantivyStorage;
use wikidata_index::api::string_to_id::StringToId as LoadedDictionary;
use wikidata_index::indexer::documents::WDDocument;
use wikidata_index::indexer::instance_of::InstanceOfMapping;
use wikidata_index::indexer::string_to_id::StringToId;
use wikidata_index::indexer::write::{get_text_no_store, prepare_document, IndexRecordOption, WeirdStruct};
use wikidata_index::json::{JsonNumber, JsonValue};
use wikidata_index::text_map::TextMap;
use std::collections::{HashMap, HashSet};

fn show(v: &JsonValue) -> String {
    match v {
        JsonValue::Null => "null".to_string(),
        JsonValue::Bool(b) => b.to_string(),
        JsonValue::Number(JsonNumber::Unsigned(n)) => n.to_string(),
        JsonValue::Number(JsonNumber::Negative(n)) => n.to_string(),
        JsonValue::Number(JsonNumber::Other(s)) => s.clone(),
        JsonValue::Str(s) => format!("{:?}", s),
        JsonValue::Array(items) => {
            format!("[{}]", items.iter().map(show).collect::<Vec<_>>().join(","))
        }
        JsonValue::Object(members) => format!(
            "{{{}}}",
            members.iter().map(|(k, v)| format!("{:?}:{}", k, show(v))).collect::<Vec<_>>().join(",")
        ),
    }
}

fn show_all(v: &[JsonValue]) -> String {
    show(&JsonValue::Array(v.iter().map(copy).collect()))
}

fn copy(v: &JsonValue) -> JsonValue {
    match v {
        JsonValue::Null => JsonValue::Null,
        JsonValue::Bool(b) => JsonValue::Bool(*b),
        JsonValue::Number(JsonNumber::Unsigned(n)) => JsonValue::Number(JsonNumber::Unsigned(*n)),
        JsonValue::Number(JsonNumber::Negative(n)) => JsonValue::Number(JsonNumber::Negative(*n)),
        JsonValue::Number(JsonNumber::Other(s)) => JsonValue::Number(JsonNumber::Other(s.clone())),
        JsonValue::Str(s) => JsonValue::Str(s.clone()),
        JsonValue::Array(items) => JsonValue::Array(items.iter().map(copy).collect()),
        JsonValue::Object(m) => JsonValue::Object(m.iter().map(|(k, v)| (k.clone(), copy(v))).collect()),
    }
}

#[test]
fn labels_grouped_by_text_as_documented() {
    let mut d = StringToId::new();
    let mut labels = WeirdStruct::new();
    labels.insert("en", "Douglas Adam", &mut d);
    labels.insert("fr", "Douglas Adam", &mut d);
    labels.insert("ja", "ダグラス・アダムズ", &mut d);
    assert_eq!(show_all(&labels.keys()), "[\"Douglas Adam\",\"ダグラス・アダムズ\"]");
    assert_eq!(show_all(&labels.values()), "[[1,2],3]");
}

#[test]
fn grouped_numbers_are_sorted_and_texts_ordered() {
    let mut d = StringToId::new();
    d.get("x".to_string());
    d.get("y".to_string());
    let mut labels = WeirdStruct::new();
    labels.insert("y", "b", &mut d);
    labels.insert("z", "a", &mut d);
    labels.insert("x", "b", &mut d);
    assert_eq!(show_all(&labels.keys()), "[\"a\",\"b\"]");
    assert_eq!(show_all(&labels.values()), "[3,[1,2]]");
    assert_eq!(d.next_id(), 3);
}

#[test]
fn empty_labels_give_empty_arrays() {
    let labels = WeirdStruct::new();
    assert!(labels.keys().is_empty());
    assert!(labels.values().is_empty());
}

#[test]
fn body_field_settings() {
    let o = get_text_no_store("charabia_segment");
    assert!(o.stored);
    let i = o.indexing.unwrap();
    assert_eq!(i.tokenizer, "charabia_segment");
    assert!(!i.fieldnorms);
    assert_eq!(i.index_option, IndexRecordOption::Basic);
}

fn languages() -> TextMap<usize> {
    let mut m = TextMap::new();
    for (i, l) in ["en", "fr", "ja"].iter().enumerate() {
        m.insert(l.to_string(), i);
    }
    m
}

fn sample_document() -> WDDocument {
    let mut doc = WDDocument::new(42, 7, vec![5, 6], true);
    doc.titles.push(("en".to_string(), "Douglas Adams".to_string()));
    doc.titles.push(("fr".to_string(), "Douglas Adams".to_string()));
    doc.titles.push(("ja".to_string(), "ダグラス・アダムズ".to_string()));
    doc.titles.push(("".to_string(), "DNA".to_string()));
    doc.sitelinks.push(("enwiki".to_string(), "Douglas_Adams".to_string()));
    doc.sitelinks.push(("frwiki".to_string(), "Douglas_Adams".to_string()));
    doc
}

fn facets() -> InstanceOfMapping {
    let mut map = HashMap::new();
    map.insert(5u64, "/human".to_string());
    InstanceOfMapping::from_config(map, vec![6], HashSet::new())
}

#[test]
fn prepared_document_body_and_titles() {
    let doc = sample_document();
    let mut langs = StringToId::new();
    let mut sites = StringToId::new();
    let p = prepare_document(&doc, &languages(), &mut langs, &mut sites, &facets());
    assert_eq!(p.wid, 42);
    assert_eq!(p.rank, 7);
    assert!(p.add_to_index);
    assert_eq!(p.titles, vec!["Douglas Adams", "Douglas Adams", "ダグラス・アダムズ", "DNA"]);
    assert_eq!(p.facets, vec!["/human"]);
    assert_eq!(
        show(&p.body),
        "{\"a\":[\"Douglas Adams\",\"ダグラス・アダムズ\"],\"b\":[\"Douglas_Adams\"],\"c\":[[1,2],3],\"d\":[[1,2]]}"
    );
    assert_eq!(langs.entries(), vec![("en".to_string(), 1), ("fr".to_string(), 2), ("ja".to_string(), 3)]);
    assert_eq!(sites.entries(), vec![("enwiki".to_string(), 1), ("frwiki".to_string(), 2)]);
}

fn storage_for(langs: &StringToId, sites: &StringToId) -> TantivyStorage {
    TantivyStorage::new(
        LoadedDictionary::from_parts(langs.entries(), langs.next_id(), Vec::new()),
        LoadedDictionary::from_parts(sites.entries(), sites.next_id(), Vec::new()),
    )
}

#[test]
fn stored_label_reads_back() {
    let doc = sample_document();
    let mut langs = StringToId::new();
    let mut sites = StringToId::new();
    let p = prepare_document(&doc, &languages(), &mut langs, &mut sites, &facets());
    langs.get("de".to_string());
    let storage = storage_for(&langs, &sites);
    assert_eq!(storage.get_label_from_document(&p.body, "en"), Some("Douglas Adams".to_string()));
    assert_eq!(storage.get_label_from_document(&p.body, "fr"), Some("Douglas Adams".to_string()));
    assert_eq!(storage.get_label_from_document(&p.body, "ja"), Some("ダグラス・アダムズ".to_string()));
    assert_eq!(storage.get_label_from_document(&p.body, "de"), None);
    assert_eq!(storage.get_sitelink_from_document(&p.body, "frwiki"), Some("Douglas_Adams".to_string()));
}

#[test]
fn zz_scans_single_and_grouped_numbers() {
    let doc = sample_document();
    let mut langs = StringToId::new();
    let mut sites = StringToId::new();
    let p = prepare_document(&doc, &languages(), &mut langs, &mut sites, &facets());
    let storage = storage_for(&langs, &sites);
    assert_eq!(storage.zz(&p.body, 3, "a", "c"), Some("ダグラス・アダムズ".to_string()));
    assert_eq!(storage.zz(&p.body, 2, "a", "c"), Some("Douglas Adams".to_string()));
    assert_eq!(storage.zz(&p.body, 9, "a", "c"), None);
}

#[test]
fn whole_entity_decodes() {
    let doc = sample_document();
    let mut langs = StringToId::new();
    let mut sites = StringToId::new();
    let p = prepare_document(&doc, &languages(), &mut langs, &mut sites, &facets());
    let storage = storage_for(&langs, &sites);
    let e = storage.document_entity_to_map(&p.body);
    let labels = e.get_labels();
    assert_eq!(labels.len(), 3);
    assert_eq!(labels.get("en"), Some(&"Douglas Adams".to_string()));
    assert_eq!(labels.get("fr"), Some(&"Douglas Adams".to_string()));
    assert_eq!(labels.get("ja"), Some(&"ダグラス・アダムズ".to_string()));
    let pages = e.get_wikisites();
    assert_eq!(pages.get("enwiki"), Some(&"Douglas_Adams".to_string()));
    assert_eq!(pages.get("frwiki"), Some(&"Douglas_Adams".to_string()));
    assert_eq!(pages.get("dewiki"), None);
}

#[test]
fn numbers_without_name_decode_as_decimal() {
    let body = JsonValue::Object(vec![
        ("a".to_string(), JsonValue::Array(vec![JsonValue::Str("x".to_string())])),
        ("b".to_string(), JsonValue::Array(vec![])),
        ("c".to_string(), JsonValue::Array(vec![JsonValue::Number(JsonNumber::Unsigned(12))])),
        ("d".to_string(), JsonValue::Array(vec![])),
    ]);
    let storage = TantivyStorage::new(LoadedDictionary::new(), LoadedDictionary::new());
    let e = storage.document_entity_to_map(&body);
    assert_eq!(e.get_labels().get("12"), Some(&"x".to_string()));
    assert_eq!(e.get_wikisites().len(), 0);
}

#[test]
fn languages_listed_once() {
    let storage = TantivyStorage::new(
        LoadedDictionary::from_parts(vec![("en".to_string(), 1), ("fr".to_string(), 2)], 2, Vec::new()),
        LoadedDictionary::new(),
    );
    let mut l = storage.get_languages();
    l.sort();
    assert_eq!(l, vec!["en".to_string(), "fr".to_string()]);
}

#[test]
fn query_and_facet_split() {
    let storage = TantivyStorage::new(LoadedDictionary::new(), LoadedDictionary::new());
    let (q, f) = storage.get_query_and_facet("/human Douglas Adams".to_string());
    assert_eq!(q, "Douglas Adams");
    let f = f.unwrap();
    let expected = wikidata_index::facet::Facet::from_text("/human").unwrap();
    assert_eq!(f.encoded_str(), expected.encoded_str());
    let (q, f) = storage.get_query_and_facet("Douglas Adams".to_string());
    assert_eq!(q, "Douglas Adams");
    assert!(f.is_none());
    let (q, f) = storage.get_query_and_facet("single".to_string());
    assert_eq!(q, "single");
    assert!(f.is_none());
    let (q, f) = storage.get_query_and_facet("".to_string());
    assert_eq!(q, "");
    assert!(f.is_none());
}

#[test]
fn facet_text_must_start_with_slash() {
    let f = wikidata_index::facet::Facet::from_text("/a/b").unwrap();
    assert_eq!(f.encoded_str(), "a\u{0}b");
    let e = wikidata_index::facet::Facet::from_text("a/b").unwrap_err();
    assert_eq!(e.text, "a/b");
    assert!(wikidata_index::facet::Facet::from_text("").is_err());
}

#[test]
fn written_bodies_can_be_read_and_broken_ones_are_told() {
    let doc = sample_document();
    let mut langs = StringToId::new();
    let mut sites = StringToId::new();
    let p = prepare_document(&doc, &languages(), &mut langs, &mut sites, &facets());
    langs.get("de".to_string());
    let storage = storage_for(&langs, &sites);
    assert!(wikidata_index::api::storage::body_is_ok(&p.body));
    assert!(storage.can_read_label(&p.body, "ja"));
    assert!(storage.can_read_label(&p.body, "de"));
    assert!(!storage.can_read_label(&p.body, "xx"));
    assert!(storage.can_read_sitelink(&p.body, "enwiki"));
    assert!(!storage.can_read_sitelink(&p.body, "en"));

    let broken = JsonValue::Object(vec![
        ("a".to_string(), JsonValue::Array(vec![JsonValue::Str("x".to_string())])),
        ("c".to_string(), JsonValue::Array(vec![JsonValue::Str("1".to_string())])),
    ]);
    assert!(!wikidata_index::api::storage::body_is_ok(&broken));
    assert!(!wikidata_index::api::storage::lookup_is_ok(&broken, 1, "a", "c"));
    assert!(!wikidata_index::api::storage::lookup_is_ok(&broken, 1, "b", "d"));
    let short = JsonValue::Object(vec![
        ("a".to_string(), JsonValue::Array(vec![])),
        ("c".to_string(), JsonValue::Array(vec![JsonValue::Number(JsonNumber::Unsigned(1))])),
    ]);
    assert!(!wikidata_index::api::storage::lookup_is_ok(&short, 1, "a", "c"));
    assert!(wikidata_index::api::storage::lookup_is_ok(&short, 2, "a", "c"));
}

#[test]
fn language_with_two_labels_reads_first_and_decodes_last() {
    let mut doc = WDDocument::new(1, 0, vec![], true);
    doc.titles.push(("en".to_string(), "Xavier".to_string()));
    doc.titles.push(("en".to_string(), "Anna".to_string()));
    let mut langs = StringToId::new();
    let mut sites = StringToId::new();
    let p = prepare_document(&doc, &languages(), &mut langs, &mut sites, &facets());
    assert_eq!(show(&p.body), "{\"a\":[\"Anna\",\"Xavier\"],\"b\":[],\"c\":[1,1],\"d\":[]}");
    let storage = storage_for(&langs, &sites);
    assert_eq!(storage.get_label_from_document(&p.body, "en"), Some("Anna".to_string()));
    let e = storage.document_entity_to_map(&p.body);
    assert_eq!(e.get_labels().get("en"), Some(&"Xavier".to_string()));
}

#[test]
fn language_positions() {
    let list: Vec<String> = ["en", "fr", "en"].iter().map(|s| s.to_string()).collect();
    let names = wikidata_index::indexer::write::stats_names_of(&list);
    assert_eq!(names.len(), 2);
    assert_eq!(names.get("en"), Some(&2));
    assert_eq!(names.get("fr"), Some(&1));
    assert_eq!(names.get("ja"), None);
}

#[test]
fn facet_escapes_and_separators() {
    let f = wikidata_index::facet::Facet::from_text("/a\\/b/c").unwrap();
    assert_eq!(f.encoded_str(), "a/b\u{0}c");
    let f = wikidata_index::facet::Facet::from_text("/").unwrap();
    assert_eq!(f.encoded_str(), "");
    let f = wikidata_index::facet::Facet::from_text("/é\\\\x/").unwrap();
    assert_eq!(f.encoded_str(), "é\\x\u{0}");
}
