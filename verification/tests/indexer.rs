use std::collections::{HashMap, HashSet};
use wikidata_index::indexer::documents::{
    Claim, ClaimList, DataValue, SiteLink, Snak, WDDocument, WDDocumentPool, WikiLabel, WikidataItem, BATCH_SIZE,
};
use wikidata_index::indexer::instance_of::{InstanceOfMapping, InstanceOfType};
use wikidata_index::indexer::parse::{item_is_ok, parse_item};
use wikidata_index::indexer::ranks::{ranks_from_csv, RankRecordError, Ranks};
use wikidata_index::json::{JsonNumber, JsonValue};

#[test]
fn ranks_default_to_zero() {
    let mut ranks = Ranks::new();
    assert_eq!(ranks.get(42), 0);
    assert_eq!(ranks.add_record("Q42", "1234"), Ok(()));
    assert_eq!(ranks.get(42), 1234);
    assert_eq!(ranks.get(43), 0);
    assert_eq!(ranks.add_record("Q42", "5"), Ok(()));
    assert_eq!(ranks.get(42), 5);
}

#[test]
fn rank_records_that_cannot_be_read() {
    let mut ranks = Ranks::new();
    assert_eq!(ranks.add_record("", "1"), Err(RankRecordError::BadEntity));
    assert_eq!(ranks.add_record("Q", "1"), Err(RankRecordError::BadEntity));
    assert_eq!(ranks.add_record("Qx1", "1"), Err(RankRecordError::BadEntity));
    assert_eq!(ranks.add_record("Q1", "many"), Err(RankRecordError::BadRank));
    assert_eq!(ranks.add_record("Q1", ""), Err(RankRecordError::BadRank));
    assert!(ranks.ranks.is_empty());
}

fn mapping() -> InstanceOfMapping {
    let mut map = HashMap::new();
    map.insert(5u64, "/human".to_string());
    map.insert(4167410u64, "/disambiguation".to_string());
    let mut do_not_index = HashSet::new();
    do_not_index.insert(13406463u64);
    InstanceOfMapping::from_config(map, vec![4167410, 11266439], do_not_index)
}

#[test]
fn classes_configured() {
    let m = mapping();
    assert!(matches!(m.get(&5), InstanceOfType::Label(l) if l == "/human"));
    assert!(matches!(m.get(&4167410), InstanceOfType::IgnoreEntity));
    assert!(matches!(m.get(&11266439), InstanceOfType::IgnoreEntity));
    assert!(matches!(m.get(&1), InstanceOfType::NotFound));
    assert!(m.is_indexed(&13406463));
    assert!(!m.is_indexed(&5));
    let empty = InstanceOfMapping::new();
    assert!(matches!(empty.get(&5), InstanceOfType::NotFound));
}

fn class_claim(id: u64) -> Claim {
    Claim {
        rank: "normal".to_string(),
        mainsnak: Snak {
            datatype: "wikibase-item".to_string(),
            datavalue: DataValue {
                value: JsonValue::Object(vec![
                    ("entity-type".to_string(), JsonValue::Str("item".to_string())),
                    ("numeric-id".to_string(), JsonValue::Number(JsonNumber::Unsigned(id))),
                ]),
                dtype: "wikibase-entityid".to_string(),
            },
        },
    }
}

fn label(s: &str) -> WikiLabel {
    WikiLabel { value: s.to_string() }
}

fn item(id: &str, classes: &[u64]) -> WikidataItem {
    WikidataItem {
        id: id.to_string(),
        labels: vec![("fr".to_string(), label("Douglas Adams")), ("en".to_string(), label("Douglas Adams (writer)"))],
        aliases: vec![("en".to_string(), vec![label("DNA"), label("Douglas Noël Adams")])],
        sitelinks: vec![
            ("enwiki".to_string(), SiteLink { title: "Douglas Adams".to_string() }),
            ("frwiki".to_string(), SiteLink { title: "Douglas Adams".to_string() }),
            ("dewiki".to_string(), SiteLink { title: "DNA".to_string() }),
        ],
        claims: ClaimList { p31: classes.iter().map(|c| class_claim(*c)).collect() },
    }
}

fn pairs(v: &[(&str, &str)]) -> Vec<(String, String)> {
    v.iter().map(|(a, b)| (a.to_string(), b.to_string())).collect()
}

#[test]
fn item_becomes_document() {
    let mut ranks = Ranks::new();
    ranks.add_record("Q42", "99").unwrap();
    let (key, doc) = parse_item(&ranks, &mapping(), &item("Q42", &[5])).unwrap();
    assert_eq!(key, "Douglas Adams (writer)");
    assert_eq!(doc.wid, 42);
    assert_eq!(doc.rank, 99);
    assert_eq!(doc.instance_of, vec![5]);
    assert!(doc.add_to_index);
    assert_eq!(
        doc.titles,
        pairs(&[
            ("fr", "Douglas Adams"),
            ("en", "Douglas Adams (writer)"),
            ("", "DNA"),
            ("", "Douglas Noël Adams"),
            ("", "Douglas Adams"),
        ])
    );
    assert_eq!(
        doc.sitelinks,
        pairs(&[("enwiki", "Douglas Adams"), ("frwiki", "Douglas Adams"), ("dewiki", "DNA")])
    );
}

#[test]
fn non_entities_and_skipped_classes_give_nothing() {
    let ranks = Ranks::new();
    assert!(parse_item(&ranks, &mapping(), &item("P31", &[5])).is_none());
    assert!(parse_item(&ranks, &mapping(), &item("L7", &[])).is_none());
    assert!(parse_item(&ranks, &mapping(), &item("Q1", &[5, 4167410])).is_none());
}

#[test]
fn class_kept_out_of_search() {
    let ranks = Ranks::new();
    let (_, doc) = parse_item(&ranks, &mapping(), &item("Q7", &[13406463, 5, 77])).unwrap();
    assert!(!doc.add_to_index);
    assert_eq!(doc.instance_of, vec![5, 77]);
    assert_eq!(doc.rank, 0);
}

#[test]
fn item_without_english_label_has_empty_key() {
    let ranks = Ranks::new();
    let mut it = item("Q8", &[]);
    it.labels.retain(|(l, _)| l != "en");
    let (key, doc) = parse_item(&ranks, &mapping(), &it).unwrap();
    assert_eq!(key, "");
    assert!(doc.instance_of.is_empty());
    assert!(doc.add_to_index);
}

#[test]
fn class_without_number_is_passed_over() {
    let ranks = Ranks::new();
    let mut it = item("Q9", &[5]);
    let mut c = class_claim(0);
    c.mainsnak.datavalue.value = JsonValue::Str("somevalue".to_string());
    it.claims.p31.insert(0, c);
    let (_, doc) = parse_item(&ranks, &mapping(), &it).unwrap();
    assert_eq!(doc.instance_of, vec![5]);
}

#[test]
fn pool_groups_documents_by_key() {
    let mut pool = WDDocumentPool::new();
    assert_eq!(pool.len(), 0);
    pool.insert("b".to_string(), &WDDocument::new(1, 0, vec![], true));
    pool.insert("a".to_string(), &WDDocument::new(2, 0, vec![], true));
    pool.insert("b".to_string(), &WDDocument::new(3, 0, vec![], false));
    assert_eq!(pool.len(), 3);
    assert_eq!(pool.group_keys(), vec!["b".to_string(), "a".to_string()]);
    assert_eq!(pool.write_order(), vec![1, 0]);
    assert_eq!(pool.group_key(1), "a");
    let b: Vec<u64> = pool.group(0).iter().map(|d| d.wid).collect();
    assert_eq!(b, vec![1, 3]);
    assert!(!pool.is_full());
    pool.clear();
    assert_eq!(pool.len(), 0);
    assert!(pool.group_keys().is_empty());
}

#[test]
fn pool_is_full_at_a_batch() {
    assert_eq!(BATCH_SIZE, 2_000_000);
    let mut pool = WDDocumentPool::new();
    let doc = WDDocument::new(1, 0, vec![], true);
    for _ in 0..10 {
        pool.insert("k".to_string(), &doc);
    }
    assert_eq!(pool.len(), 10);
    assert!(!pool.is_full());
}

#[test]
fn document_copy_keeps_everything() {
    let mut doc = WDDocument::new(5, 6, vec![1, 2], false);
    doc.titles.push(("en".to_string(), "t".to_string()));
    doc.sitelinks.push(("enwiki".to_string(), "p".to_string()));
    let c = doc.duplicate();
    assert_eq!(c.wid, 5);
    assert_eq!(c.rank, 6);
    assert_eq!(c.instance_of, vec![1, 2]);
    assert!(!c.add_to_index);
    assert_eq!(c.titles, doc.titles);
    assert_eq!(c.sitelinks, doc.sitelinks);
}

#[test]
fn items_that_can_be_read() {
    let m = mapping();
    assert!(item_is_ok(&m, &item("Q42", &[5])));
    assert!(item_is_ok(&m, &item("P31", &[])));
    assert!(!item_is_ok(&m, &item("", &[])));
    assert!(!item_is_ok(&m, &item("Qx", &[])));
    let mut broken = item("Q1", &[5]);
    broken.claims.p31[0].mainsnak.datavalue.value =
        JsonValue::Object(vec![("numeric-id".to_string(), JsonValue::Str("5".to_string()))]);
    assert!(!item_is_ok(&m, &broken));
    let mut skipped_first = item("Q1", &[4167410]);
    skipped_first.claims.p31.push(broken.claims.p31.remove(0));
    assert!(item_is_ok(&m, &skipped_first));
}

#[test]
fn rank_file_read_from_csv() {
    let ranks = ranks_from_csv(b"Entity,QRank\nQ42,1234\nQ1,7\nQ42,99\n").unwrap();
    assert_eq!(ranks.get(42), 99);
    assert_eq!(ranks.get(1), 7);
    assert_eq!(ranks.get(2), 0);
    assert_eq!(ranks.ranks.len(), 2);
    let only_header = ranks_from_csv(b"Entity,QRank\n").unwrap();
    assert!(only_header.ranks.is_empty());
    assert!(ranks_from_csv(b"").unwrap().ranks.is_empty());
}

#[test]
fn rank_file_that_cannot_be_read() {
    assert!(ranks_from_csv(b"Entity,QRank\nQ42,many\n").is_none());
    assert!(ranks_from_csv(b"Entity,QRank\nX,1\n").is_none());
    assert!(ranks_from_csv(b"Entity\nQ42\n").is_none());
    assert!(ranks_from_csv(b"Entity,QRank\nQ42,1,extra\n").is_none());
}
