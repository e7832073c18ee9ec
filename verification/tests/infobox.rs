use wikidata_index::api::infobox::{finish_infobox, get_property_values, infobox_property_ids, resolve_id, start_infobox, InfoBox};
use wikidata_index::api::storage::TantivyStorage;
use wikidata_index::api::string_to_id::StringToId;
use wikidata_index::json::{JsonNumber, JsonValue};

fn s(t: &str) -> JsonValue {
    JsonValue::Str(t.to_string())
}

fn n(v: u64) -> JsonValue {
    JsonValue::Number(JsonNumber::Unsigned(v))
}

fn obj(members: Vec<(&str, JsonValue)>) -> JsonValue {
    JsonValue::Object(members.into_iter().map(|(k, v)| (k.to_string(), v)).collect())
}

fn claim(rank: Option<&str>, id: Option<u64>) -> JsonValue {
    let value = match id {
        Some(i) => obj(vec![("entity-type", s("item")), ("numeric-id", n(i))]),
        None => s("a text value"),
    };
    let mut members = vec![("mainsnak", obj(vec![("datavalue", obj(vec![("value", value)]))]))];
    if let Some(r) = rank {
        members.push(("rank", s(r)));
    }
    obj(members)
}

fn document() -> JsonValue {
    obj(vec![(
        "claims",
        obj(vec![
            ("P27", JsonValue::Array(vec![claim(Some("normal"), Some(145)), claim(None, Some(30))])),
            (
                "P31",
                JsonValue::Array(vec![
                    claim(Some("normal"), Some(1)),
                    claim(Some("preferred"), Some(5)),
                    claim(Some("deprecated"), Some(9)),
                    claim(Some("preferred"), Some(6)),
                ]),
            ),
            ("P50", JsonValue::Array(vec![claim(Some("normal"), None)])),
        ]),
    )])
}

#[test]
fn property_values_prefer_preferred_rank() {
    let d = document();
    assert_eq!(get_property_values(&d, "P31"), vec![5, 6]);
    assert_eq!(get_property_values(&d, "P27"), vec![145, 30]);
    assert_eq!(get_property_values(&d, "P50"), Vec::<u64>::new());
    assert_eq!(get_property_values(&d, "P17"), Vec::<u64>::new());
}

#[test]
fn all_shown_properties_in_order() {
    let ids = infobox_property_ids(&document());
    assert_eq!(ids.len(), 30);
    assert_eq!(ids[0], ("P27".to_string(), vec![145, 30]));
    assert_eq!(ids[2], ("P31".to_string(), vec![5, 6]));
    assert_eq!(ids[29].0, "P225");
    assert!(ids[29].1.is_empty());
}

#[test]
fn attributes_without_values_are_left_out() {
    let mut b = InfoBox::new("t", "th", "c");
    b.add_attribute("P1", &vec![]);
    b.add_attribute("P2", &vec!["x".to_string(), "y".to_string()]);
    b.add_url("wikidata", "https://www.wikidata.org/wiki/Q1");
    assert_eq!(b.attributes.len(), 1);
    assert_eq!(b.attributes[0].property, "P2");
    assert_eq!(b.attributes[0].values, vec!["x", "y"]);
    assert_eq!(b.urls.len(), 1);
    assert_eq!(b.urls[0].name, "wikidata");
    assert_eq!(b.title, "t");
}

fn storage() -> TantivyStorage {
    TantivyStorage::new(
        StringToId::from_parts(vec![("en".to_string(), 1), ("fr".to_string(), 2)], 2, Vec::new()),
        StringToId::from_parts(vec![("enwiki".to_string(), 1), ("frwiki".to_string(), 2)], 2, Vec::new()),
    )
}

fn body() -> JsonValue {
    obj(vec![
        ("a", JsonValue::Array(vec![s("Douglas Adams")])),
        ("b", JsonValue::Array(vec![s("Douglas_Adams")])),
        ("c", JsonValue::Array(vec![n(1)])),
        ("d", JsonValue::Array(vec![n(1)])),
    ])
}

#[test]
fn entity_names_resolve_to_labels_or_numbers() {
    let st = storage();
    let b = body();
    assert_eq!(resolve_id(&st, Some(&b), "en", 42), "Douglas Adams");
    assert_eq!(resolve_id(&st, Some(&b), "fr", 42), "42");
    assert_eq!(resolve_id(&st, None, "en", 42), "42");
}

#[test]
fn infobox_starts_with_title_and_addresses() {
    let st = storage();
    let b = body();
    let (ib, urls) = start_infobox(&st, &b, "en", "42");
    assert_eq!(ib.title, "Douglas Adams");
    assert_eq!(
        urls,
        vec![
            "https://www.wikidata.org/wiki/Special:EntityData/Q42.json".to_string(),
            "https://en.wikipedia.org/api/rest_v1/page/summary/Douglas_Adams".to_string(),
        ]
    );
    assert_eq!(ib.urls.len(), 1);
    assert_eq!(ib.urls[0].name, "wikipedia");
    assert_eq!(ib.urls[0].value, "https://en.wikipedia.org/wiki/Douglas_Adams");

    let (ib, urls) = start_infobox(&st, &b, "fr", "42");
    assert_eq!(ib.title, "");
    assert_eq!(urls, vec!["https://www.wikidata.org/wiki/Special:EntityData/Q42.json".to_string()]);
    assert!(ib.urls.is_empty());
}

#[test]
fn infobox_finishes_with_answers() {
    let mut ib = InfoBox::new("Douglas Adams", "", "");
    let wikidata = obj(vec![("entities", obj(vec![("Q42", obj(vec![("claims", obj(vec![]))]))]))]);
    let wikipedia = obj(vec![
        ("extract", s("English writer.")),
        ("thumbnail", obj(vec![("source", s("https://upload/x.jpg"))])),
    ]);
    let doc = finish_infobox(&mut ib, &wikidata, Some(&wikipedia));
    assert!(doc.get("claims").is_some());
    assert_eq!(ib.content, "English writer.");
    assert_eq!(ib.thumbnail, "https://upload/x.jpg");
    assert_eq!(ib.urls.len(), 1);
    assert_eq!(ib.urls[0].value, "https://www.wikidata.org/wiki/Q42");

    let mut ib2 = InfoBox::new("", "", "kept");
    finish_infobox(&mut ib2, &wikidata, None);
    assert_eq!(ib2.content, "kept");
    assert_eq!(ib2.urls[0].name, "wikidata");
}

#[test]
fn documents_that_can_be_read() {
    let d = document();
    assert!(wikidata_index::api::infobox::property_is_ok(&d, "P31"));
    assert!(wikidata_index::api::infobox::property_is_ok(&d, "P999"));
    assert!(wikidata_index::api::infobox::properties_are_ok(&d));
    let bad = obj(vec![("claims", obj(vec![("P17", JsonValue::Array(vec![obj(vec![("rank", s("normal"))])]))]))]);
    assert!(!wikidata_index::api::infobox::property_is_ok(&bad, "P17"));
    assert!(!wikidata_index::api::infobox::properties_are_ok(&bad));
    assert!(!wikidata_index::api::infobox::property_is_ok(&obj(vec![]), "P17"));
    let odd = obj(vec![(
        "claims",
        obj(vec![("P17", JsonValue::Array(vec![claim(Some("deprecated"), None)]))]),
    )]);
    assert!(wikidata_index::api::infobox::property_is_ok(&odd, "P17"));
}

#[test]
fn answers_that_can_be_read() {
    let wikidata = obj(vec![("entities", obj(vec![("Q42", obj(vec![]))]))]);
    assert!(wikidata_index::api::infobox::answers_are_ok(&wikidata, None));
    let empty = obj(vec![("entities", obj(vec![]))]);
    assert!(!wikidata_index::api::infobox::answers_are_ok(&empty, None));
    let no_source = obj(vec![("thumbnail", obj(vec![]))]);
    assert!(!wikidata_index::api::infobox::answers_are_ok(&wikidata, Some(&no_source)));
    let fine = obj(vec![("extract", s("text"))]);
    assert!(wikidata_index::api::infobox::answers_are_ok(&wikidata, Some(&fine)));
    let bad_extract = obj(vec![("extract", n(3))]);
    assert!(!wikidata_index::api::infobox::answers_are_ok(&wikidata, Some(&bad_extract)));
}
