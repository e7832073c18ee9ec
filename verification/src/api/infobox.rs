//! The infobox of an entity: its title, summary, picture, links and main
//! properties, gathered from the stored entity and from Wikidata and
//! Wikipedia answers.
use vstd::prelude::*;
use crate::json::JsonValue;
use crate::text::{text_eq, u64_to_string, decimal_text};
use crate::api::storage::{TantivyStorage, lookup, lookup_ok};
use vstd::string::*;

verus! {

/// One property of an entity and the names of its values.
#[derive(Debug)]
pub struct InfoBoxAttribute {
    pub property: String,
    pub values: Vec<String>,
}

/// A named link.
#[derive(Debug)]
pub struct InfoBoxUrl {
    pub name: String,
    pub value: String,
}

/// A summary card of an entity.
#[derive(Debug)]
pub struct InfoBox {
    pub title: String,
    pub thumbnail: String,
    pub content: String,
    pub attributes: Vec<InfoBoxAttribute>,
    pub urls: Vec<InfoBoxUrl>,
}

/// The property and value texts of an attribute.
pub open spec fn attribute_view(a: InfoBoxAttribute) -> (Seq<char>, Seq<Seq<char>>) {
    (a.property@, a.values@.map_values(|s: String| s@))
}

/// The name and address of a link.
pub open spec fn url_view(u: InfoBoxUrl) -> (Seq<char>, Seq<char>) {
    (u.name@, u.value@)
}

impl InfoBox {
    /// The attributes, as texts.
    pub open spec fn attribute_texts(&self) -> Seq<(Seq<char>, Seq<Seq<char>>)> {
        self.attributes@.map_values(|a: InfoBoxAttribute| attribute_view(a))
    }

    /// The links, as texts.
    pub open spec fn url_texts(&self) -> Seq<(Seq<char>, Seq<char>)> {
        self.urls@.map_values(|u: InfoBoxUrl| url_view(u))
    }

    /// A card with a title, a picture and a summary, and no attribute nor link.
    pub fn new(title: &str, thumbnail: &str, content: &str) -> (r: InfoBox)
        ensures
            r.title@ == title@,
            r.thumbnail@ == thumbnail@,
            r.content@ == content@,
            r.attributes@.len() == 0,
            r.urls@.len() == 0,
    {
        InfoBox {
            title: title.to_string(),
            thumbnail: thumbnail.to_string(),
            content: content.to_string(),
            attributes: Vec::new(),
            urls: Vec::new(),
        }
    }

    /// Adds an attribute, unless it has no value.
    pub fn add_attribute(&mut self, name: &str, values: &Vec<String>)
        ensures
            final(self).title == old(self).title,
            final(self).thumbnail == old(self).thumbnail,
            final(self).content == old(self).content,
            final(self).urls == old(self).urls,
            final(self).attribute_texts() == if values@.len() > 0 {
                old(self).attribute_texts().push((name@, values@.map_values(|s: String| s@)))
            } else {
                old(self).attribute_texts()
            },
    {
        if values.len() > 0 {
            let copy = crate::text::clone_texts(values);
            self.attributes.push(InfoBoxAttribute { property: name.to_string(), values: copy });
            proof {
                assert(copy@.map_values(|s: String| s@) =~= values@.map_values(|s: String| s@));
                assert(final(self).attribute_texts() =~= old(self).attribute_texts().push(
                    (name@, values@.map_values(|s: String| s@)),
                ));
            }
        }
    }

    /// Adds a link.
    pub fn add_url(&mut self, name: &str, value: &str)
        ensures
            final(self).title == old(self).title,
            final(self).thumbnail == old(self).thumbnail,
            final(self).content == old(self).content,
            final(self).attributes == old(self).attributes,
            final(self).url_texts() == old(self).url_texts().push((name@, value@)),
    {
        self.urls.push(InfoBoxUrl { name: name.to_string(), value: value.to_string() });
        assert(final(self).url_texts() =~= old(self).url_texts().push((name@, value@)));
    }
}

/// The rank of a claim; a claim without rank is a normal one.
pub open spec fn claim_rank(claim: JsonValue) -> Seq<char> {
    match claim.field("rank"@) {
        None => "normal"@,
        Some(r) => r.text().unwrap(),
    }
}

/// The value of a claim's main statement.
pub open spec fn claim_value(claim: JsonValue) -> JsonValue {
    claim.field("mainsnak"@).unwrap().field("datavalue"@).unwrap().field("value"@).unwrap()
}

/// A claim can be read: its rank is a text, its main statement has a
/// value, and an entity number it names with a normal or preferred rank is
/// a number.
pub open spec fn claim_ok(claim: JsonValue) -> bool {
    &&& claim.field("rank"@) matches Some(r) ==> r.text() is Some
    &&& claim.field("mainsnak"@) is Some
    &&& claim.field("mainsnak"@).unwrap().field("datavalue"@) is Some
    &&& claim.field("mainsnak"@).unwrap().field("datavalue"@).unwrap().field("value"@) is Some
    &&& claim_value(claim).field("numeric-id"@) matches Some(id) ==> (claim_rank(claim) == "normal"@
        || claim_rank(claim) == "preferred"@ ==> id.u64_value() is Some)
}

/// The entity numbers named by the claims of rank `rank`, in order.
pub open spec fn ranked_ids(claims: Seq<JsonValue>, rank: Seq<char>) -> Seq<u64>
    decreases claims.len(),
{
    if claims.len() == 0 {
        Seq::empty()
    } else {
        let rest = ranked_ids(claims.drop_last(), rank);
        let last = claims.last();
        if claim_rank(last) == rank && claim_value(last).field("numeric-id"@) is Some {
            rest.push(claim_value(last).field("numeric-id"@).unwrap().u64_value().unwrap())
        } else {
            rest
        }
    }
}

/// What `get_property_values` needs of an entity document.
pub open spec fn property_ok(document: JsonValue, property: Seq<char>) -> bool {
    &&& document.field("claims"@) is Some
    &&& document.field("claims"@).unwrap().field(property) matches Some(values) ==> {
        &&& values.items() is Some
        &&& forall|i: int|
            0 <= i < values.items().unwrap().len() ==> claim_ok(
                #[trigger] values.items().unwrap()[i],
            )
    }
}

/// The entity numbers a property of a document names: those of preferred
/// rank when there are any, else those of normal rank.
pub open spec fn property_values(document: JsonValue, property: Seq<char>) -> Seq<u64> {
    match document.field("claims"@).unwrap().field(property) {
        None => Seq::empty(),
        Some(values) => {
            let claims = values.items().unwrap();
            let preferred = ranked_ids(claims, "preferred"@);
            if preferred.len() > 0 {
                preferred
            } else {
                ranked_ids(claims, "normal"@)
            }
        },
    }
}

/// Whether a claim can be read (see `claim_ok`).
fn claim_is_ok(claim: &JsonValue) -> (r: bool)
    ensures
        r == claim_ok(*claim),
{
    proof {
        reveal_strlit("normal");
    }
    let rank: &str = match claim.get("rank") {
        None => "normal",
        Some(rank) => match rank.as_str() {
            None => return false,
            Some(t) => t,
        },
    };
    assert(rank@ == claim_rank(*claim));
    let value = match claim.get("mainsnak") {
        None => return false,
        Some(m) => match m.get("datavalue") {
            None => return false,
            Some(d) => match d.get("value") {
                None => return false,
                Some(v) => v,
            },
        },
    };
    match value.get("numeric-id") {
        None => true,
        Some(id) => !(text_eq(rank, "normal") || text_eq(rank, "preferred")) || id.as_u64().is_some(),
    }
}

/// Whether `get_property_values` can read `property` of `document`.
pub fn property_is_ok(document: &JsonValue, property: &str) -> (r: bool)
    ensures
        r == property_ok(*document, property@),
{
    let claims = match document.get("claims") {
        None => return false,
        Some(c) => c,
    };
    match claims.get(property) {
        None => true,
        Some(values) => match values.as_array() {
            None => false,
            Some(items) => {
                let mut i: usize = 0;
                while i < items.len()
                    invariant
                        document.field("claims"@) == Some(*claims),
                        claims.field(property@) == Some(*values),
                        values.items() == Some(items@),
                        i <= items@.len(),
                        forall|k: int| 0 <= k < i ==> claim_ok(#[trigger] items@[k]),
                    decreases items@.len() - i,
                {
                    if !claim_is_ok(&items[i]) {
                        assert(!claim_ok(values.items().unwrap()[i as int]));
                        return false;
                    }
                    i = i + 1;
                }
                true
            },
        },
    }
}

/// Whether a claim has rank `rank` and names an entity.
pub open spec fn names_entity_with_rank(c: JsonValue, rank: Seq<char>) -> bool {
    claim_rank(c) == rank && claim_value(c).field("numeric-id"@) is Some
}

/// The entity number a claim names.
pub open spec fn named_entity(c: JsonValue) -> u64 {
    claim_value(c).field("numeric-id"@).unwrap().u64_value().unwrap()
}

proof fn lemma_ranked_ids_filter(claims: Seq<JsonValue>, rank: Seq<char>)
    ensures
        ranked_ids(claims, rank) == claims.filter(|c: JsonValue| names_entity_with_rank(c, rank)).map_values(
            |c: JsonValue| named_entity(c),
        ),
    decreases claims.len(),
{
    reveal(Seq::filter);
    if claims.len() > 0 {
        lemma_ranked_ids_filter(claims.drop_last(), rank);
        let f = claims.drop_last().filter(|c: JsonValue| names_entity_with_rank(c, rank));
        let last = claims.last();
        if names_entity_with_rank(last, rank) {
            assert(f.push(last).map_values(|c: JsonValue| named_entity(c)) =~= f.map_values(
                |c: JsonValue| named_entity(c),
            ).push(named_entity(last)));
        }
    }
}

/// Preferred claims win: the numbers a property names are, in order, those
/// of its claims of preferred rank that name an entity, when there is at
/// least one; otherwise those of its claims of normal rank (a claim without
/// rank counting as normal). So every number given is named by a claim of
/// preferred or normal rank, never by a deprecated one alone.
pub proof fn lemma_preferred_claims_win(document: JsonValue, property: Seq<char>)
    requires
        property_ok(document, property),
    ensures
        document.field("claims"@).unwrap().field(property) is None ==> property_values(document, property)
            == Seq::<u64>::empty(),
        document.field("claims"@).unwrap().field(property) matches Some(values) ==> {
            let claims = values.items().unwrap();
            let preferred = claims.filter(|c: JsonValue| names_entity_with_rank(c, "preferred"@));
            let normal = claims.filter(|c: JsonValue| names_entity_with_rank(c, "normal"@));
            property_values(document, property) == if preferred.len() > 0 {
                preferred.map_values(|c: JsonValue| named_entity(c))
            } else {
                normal.map_values(|c: JsonValue| named_entity(c))
            }
        },
        forall|k: int|
            #![trigger property_values(document, property)[k]]
            0 <= k < property_values(document, property).len() ==> exists|i: int|
                0 <= i < document.field("claims"@).unwrap().field(property).unwrap().items().unwrap().len() && {
                    let c = #[trigger] document.field("claims"@).unwrap().field(property).unwrap().items().unwrap()[i];
                    &&& claim_rank(c) == "preferred"@ || claim_rank(c) == "normal"@
                    &&& claim_value(c).field("numeric-id"@) is Some
                    &&& named_entity(c) == property_values(document, property)[k]
                },
{
    match document.field("claims"@).unwrap().field(property) {
        None => {
            assert(property_values(document, property).len() == 0);
        },
        Some(values) => {
            let claims = values.items().unwrap();
            lemma_ranked_ids_filter(claims, "preferred"@);
            lemma_ranked_ids_filter(claims, "normal"@);
            let preferred = claims.filter(|c: JsonValue| names_entity_with_rank(c, "preferred"@));
            let normal = claims.filter(|c: JsonValue| names_entity_with_rank(c, "normal"@));
            let chosen = if preferred.len() > 0 { preferred } else { normal };
            let rank: Seq<char> = if preferred.len() > 0 { "preferred"@ } else { "normal"@ };
            assert(chosen == claims.filter(|c: JsonValue| names_entity_with_rank(c, rank)));
            let cs = document.field("claims"@).unwrap().field(property).unwrap().items().unwrap();
            assert(cs == claims);
            assert forall|k: int|
                #![trigger property_values(document, property)[k]]
                0 <= k < property_values(document, property).len() implies exists|i: int|
                0 <= i < cs.len() && {
                    let c = #[trigger] cs[i];
                    &&& claim_rank(c) == "preferred"@ || claim_rank(c) == "normal"@
                    &&& claim_value(c).field("numeric-id"@) is Some
                    &&& named_entity(c) == property_values(document, property)[k]
                } by {
                let c = chosen[k];
                assert(chosen.contains(c));
                claims.lemma_filter_contains_rev(|c: JsonValue| names_entity_with_rank(c, rank), c);
                assert(names_entity_with_rank(c, rank));
                let i = choose|i: int| 0 <= i < claims.len() && claims[i] == c;
                assert(property_values(document, property)[k] == named_entity(c));
                assert(cs[i] == c);
            }
            assert(forall|k: int|
                #![trigger property_values(document, property)[k]]
                0 <= k < property_values(document, property).len() ==> exists|i: int|
                0 <= i < document.field("claims"@).unwrap().field(property).unwrap().items().unwrap().len() && {
                    let c = #[trigger] document.field("claims"@).unwrap().field(property).unwrap().items().unwrap()[i];
                    &&& claim_rank(c) == "preferred"@ || claim_rank(c) == "normal"@
                    &&& claim_value(c).field("numeric-id"@) is Some
                    &&& named_entity(c) == property_values(document, property)[k]
                });
        },
    }
}

/// The entity numbers a property of a Wikidata document names: those of
/// preferred rank when there are any, else those of normal rank.
pub fn get_property_values(document: &JsonValue, property: &str) -> (r: Vec<u64>)
    requires
        property_ok(*document, property@),
    ensures
        r@ == property_values(*document, property@),
        document.field("claims"@).unwrap().field(property@) matches Some(values) ==> {
            let claims = values.items().unwrap();
            let preferred = claims.filter(|c: JsonValue| names_entity_with_rank(c, "preferred"@));
            let normal = claims.filter(|c: JsonValue| names_entity_with_rank(c, "normal"@));
            r@ == if preferred.len() > 0 {
                preferred.map_values(|c: JsonValue| named_entity(c))
            } else {
                normal.map_values(|c: JsonValue| named_entity(c))
            }
        },
        document.field("claims"@).unwrap().field(property@) is None ==> r@.len() == 0,
{
    proof {
        lemma_preferred_claims_win(*document, property@);
    }
    match document.get("claims").unwrap().get(property) {
        None => Vec::new(),
        Some(values) => {
            let mut normal: Vec<u64> = Vec::new();
            let mut preferred: Vec<u64> = Vec::new();
            let claims = values.as_array().unwrap();
            proof {
                reveal_strlit("normal");
                reveal_strlit("preferred");
                assert("normal"@ != "preferred"@) by {
                    assert("normal"@.len() != "preferred"@.len());
                }
                assert forall|k: int| 0 <= k < claims@.len() implies claim_ok(#[trigger] claims@[k]) by {
                    assert(claims@[k] == values.items().unwrap()[k]);
                }
            }
            let mut i: usize = 0;
            while i < claims.len()
                invariant
                    i <= claims@.len(),
                    forall|k: int| 0 <= k < claims@.len() ==> claim_ok(#[trigger] claims@[k]),
                    "normal"@ != "preferred"@,
                    normal@ == ranked_ids(claims@.take(i as int), "normal"@),
                    preferred@ == ranked_ids(claims@.take(i as int), "preferred"@),
                decreases claims@.len() - i,
            {
                let v = &claims[i];
                let rank: &str = match v.get("rank") {
                    None => "normal",
                    Some(rank) => rank.as_str().unwrap(),
                };
                assert(rank@ == claim_rank(*v));
                let a = v.get("mainsnak").unwrap().get("datavalue").unwrap().get("value").unwrap();
                proof {
                    assert(claims@.take(i + 1).drop_last() =~= claims@.take(i as int));
                    assert(claims@.take(i + 1).last() == *v);
                }
                match a.get("numeric-id") {
                    None => {},
                    Some(numeric_id) => {
                        if text_eq(rank, "normal") {
                            normal.push(numeric_id.as_u64().unwrap());
                        } else if text_eq(rank, "preferred") {
                            preferred.push(numeric_id.as_u64().unwrap());
                        }
                    },
                }
                i = i + 1;
            }
            assert(claims@.take(claims@.len() as int) =~= claims@);
            if preferred.len() > 0 {
                preferred
            } else {
                normal
            }
        },
    }
}


/// The properties an infobox shows, in order.
pub open spec fn attribute_names() -> Seq<Seq<char>> {
    seq![
        "P27"@, "P495"@, "P31"@, "P17"@, "P6"@, "P122"@, "P1454"@, "P400"@, "P50"@, "P170"@,
        "P57"@, "P175"@, "P178"@, "P162"@, "P176"@, "P58"@, "P272"@, "P264"@, "P123"@, "P449"@,
        "P750"@, "P86"@, "P38"@, "P136"@, "P364"@, "P277"@, "P840"@, "P282"@, "P218"@, "P225"@,
    ]
}

/// The properties an infobox shows, as texts.
fn attribute_name_list() -> (r: [&'static str; 30])
    ensures
        r@.map_values(|s: &str| s@) == attribute_names(),
{
    let names: [&str; 30] = [
        "P27", "P495", "P31", "P17", "P6", "P122", "P1454", "P400", "P50", "P170", "P57", "P175",
        "P178", "P162", "P176", "P58", "P272", "P264", "P123", "P449", "P750", "P86", "P38",
        "P136", "P364", "P277", "P840", "P282", "P218", "P225",
    ];
    assert(names@.map_values(|s: &str| s@) =~= attribute_names());
    names
}

/// Whether `infobox_property_ids` can read every property an infobox shows.
pub fn properties_are_ok(document: &JsonValue) -> (r: bool)
    ensures
        r == forall|i: int| 0 <= i < attribute_names().len() ==> property_ok(*document, #[trigger] attribute_names()[i]),
{
    let names = attribute_name_list();
    let mut i: usize = 0;
    while i < 30
        invariant
            i <= 30,
            names@.map_values(|s: &str| s@) == attribute_names(),
            forall|k: int| 0 <= k < i ==> property_ok(*document, #[trigger] attribute_names()[k]),
        decreases 30 - i,
    {
        assert(names[i as int]@ == attribute_names()[i as int]);
        if !property_is_ok(document, names[i]) {
            return false;
        }
        i = i + 1;
    }
    true
}

/// For each property an infobox shows, the entity numbers it names in
/// `document` (see `get_property_values`), in the order of `attribute_names`.
pub fn infobox_property_ids(document: &JsonValue) -> (r: Vec<(String, Vec<u64>)>)
    requires
        forall|i: int| 0 <= i < attribute_names().len() ==> property_ok(*document, #[trigger] attribute_names()[i]),
    ensures
        r@.len() == attribute_names().len(),
        forall|i: int|
            0 <= i < r@.len() ==> #[trigger] r@[i].0@ == attribute_names()[i] && r@[i].1@
                == property_values(*document, attribute_names()[i]),
{
    let names = attribute_name_list();
    let mut out: Vec<(String, Vec<u64>)> = Vec::new();
    let mut i: usize = 0;
    while i < 30
        invariant
            i <= 30,
            names@.map_values(|s: &str| s@) == attribute_names(),
            forall|k: int| 0 <= k < attribute_names().len() ==> property_ok(*document, #[trigger] attribute_names()[k]),
            out@.len() == i,
            forall|k: int|
                0 <= k < i ==> #[trigger] out@[k].0@ == attribute_names()[k] && out@[k].1@
                    == property_values(*document, attribute_names()[k]),
        decreases 30 - i,
    {
        let name = names[i];
        assert(name@ == attribute_names()[i as int]);
        let values = get_property_values(document, name);
        assert(values@ == property_values(*document, attribute_names()[i as int]));
        let ghost before = out@;
        out.push((name.to_string(), values));
        assert(out@[i as int].0@ == attribute_names()[i as int]);
        assert(out@[i as int].1@ == property_values(*document, attribute_names()[i as int]));
        assert forall|k: int| 0 <= k < i + 1 implies #[trigger] out@[k].0@ == attribute_names()[k] && out@[k].1@
            == property_values(*document, attribute_names()[k]) by {
            if k < i {
                assert(out@[k] == before[k]);
            }
        }
        i = i + 1;
    }
    out
}

/// The name shown for an entity number: its label in `lang` when the
/// entity is stored and has one, else the number itself.
pub fn resolve_id(storage: &TantivyStorage, entity: Option<&JsonValue>, lang: &str, qid: u64) -> (r:
    String)
    requires
        entity matches Some(body) ==> {
            &&& storage.languages().ids().contains_key(lang@)
            &&& lookup_ok(*body, storage.languages().ids()[lang@], "a"@, "c"@)
        },
    ensures
        r@ == match entity {
            None => decimal_text(qid as nat),
            Some(body) => match lookup(*body, storage.languages().ids()[lang@], "a"@, "c"@) {
                None => decimal_text(qid as nat),
                Some(label) => label,
            },
        },
{
    proof {
        reveal_strlit("a");
        reveal_strlit("c");
        assert("a"@ =~= seq!['a']);
        assert("c"@ =~= seq!['c']);
    }
    match entity {
        None => u64_to_string(qid),
        Some(document) => match storage.get_label_from_document(document, lang) {
            None => u64_to_string(qid),
            Some(a) => a,
        },
    }
}

/// The address of the Wikidata document of entity `id`.
pub open spec fn wikidata_document_url(id: Seq<char>) -> Seq<char> {
    "https://www.wikidata.org/wiki/Special:EntityData/Q"@ + id + ".json"@
}

/// The address of the Wikipedia summary of page `page` in language `lang`.
pub open spec fn wikipedia_summary_url(lang: Seq<char>, page: Seq<char>) -> Seq<char> {
    "https://"@ + lang + ".wikipedia.org/api/rest_v1/page/summary/"@ + page
}

/// The address of page `page` of Wikipedia in language `lang`.
pub open spec fn wikipedia_page_url(lang: Seq<char>, page: Seq<char>) -> Seq<char> {
    "https://"@ + lang + ".wikipedia.org/wiki/"@ + page
}

/// What `start_infobox` needs: the language and its Wikipedia are known,
/// and the stored body can be searched for both.
pub open spec fn infobox_start_ok(storage: TantivyStorage, body: JsonValue, lang: Seq<char>) -> bool {
    &&& storage.languages().ids().contains_key(lang)
    &&& lookup_ok(body, storage.languages().ids()[lang], "a"@, "c"@)
    &&& storage.wikisites().ids().contains_key(lang + "wiki"@)
    &&& lookup_ok(body, storage.wikisites().ids()[lang + "wiki"@], "b"@, "d"@)
}

/// Starts the infobox of a stored entity: its title is its label in
/// `lang` (empty when it has none); when it has a page on the Wikipedia of
/// `lang`, a link to that page is added. Also gives the addresses to fetch:
/// the entity's Wikidata document, then the page's Wikipedia summary if any.
pub fn start_infobox(storage: &TantivyStorage, body: &JsonValue, lang: &str, id: &str) -> (r: (
    InfoBox,
    Vec<String>,
))
    requires
        infobox_start_ok(*storage, *body, lang@),
    ensures
        r.0.title@ == match lookup(*body, storage.languages().ids()[lang@], "a"@, "c"@) {
            None => Seq::<char>::empty(),
            Some(label) => label,
        },
        r.0.thumbnail@ == Seq::<char>::empty(),
        r.0.content@ == Seq::<char>::empty(),
        r.0.attributes@.len() == 0,
        r.1@.map_values(|s: String| s@) == match lookup(
            *body,
            storage.wikisites().ids()[lang@ + "wiki"@],
            "b"@,
            "d"@,
        ) {
            None => seq![wikidata_document_url(id@)],
            Some(page) => seq![wikidata_document_url(id@), wikipedia_summary_url(lang@, page)],
        },
        r.0.url_texts() == match lookup(*body, storage.wikisites().ids()[lang@ + "wiki"@], "b"@, "d"@) {
            None => Seq::<(Seq<char>, Seq<char>)>::empty(),
            Some(page) => seq![("wikipedia"@, wikipedia_page_url(lang@, page))],
        },
{
    proof {
        reveal_strlit("a");
        reveal_strlit("b");
        reveal_strlit("c");
        reveal_strlit("d");
        assert("a"@ =~= seq!['a']);
        assert("b"@ =~= seq!['b']);
        assert("c"@ =~= seq!['c']);
        assert("d"@ =~= seq!['d']);
    }
    let mut infobox = InfoBox::new("", "", "");
    proof {
        reveal_strlit("");
    }
    let mut wikipedia_id = lang.to_string();
    wikipedia_id.append("wiki");
    let mut urls: Vec<String> = Vec::new();
    let mut entity_url = "https://www.wikidata.org/wiki/Special:EntityData/Q".to_string();
    entity_url.append(id);
    entity_url.append(".json");
    urls.push(entity_url);
    infobox.title = match storage.get_label_from_document(body, lang) {
        Some(label) => label,
        None => "".to_string(),
    };
    match storage.get_sitelink_from_document(body, wikipedia_id.as_str()) {
        Some(wikipedia_page) => {
            let mut summary = "https://".to_string();
            summary.append(lang);
            summary.append(".wikipedia.org/api/rest_v1/page/summary/");
            summary.append(wikipedia_page.as_str());
            urls.push(summary);
            let mut page = "https://".to_string();
            page.append(lang);
            page.append(".wikipedia.org/wiki/");
            page.append(wikipedia_page.as_str());
            infobox.add_url("wikipedia", page.as_str());
        },
        None => {},
    }
    assert(urls@.map_values(|s: String| s@) =~= match lookup(
        *body,
        storage.wikisites().ids()[lang@ + "wiki"@],
        "b"@,
        "d"@,
    ) {
        None => seq![wikidata_document_url(id@)],
        Some(page) => seq![wikidata_document_url(id@), wikipedia_summary_url(lang@, page)],
    });
    assert(infobox.url_texts() =~= match lookup(*body, storage.wikisites().ids()[lang@ + "wiki"@], "b"@, "d"@) {
        None => Seq::<(Seq<char>, Seq<char>)>::empty(),
        Some(page) => seq![("wikipedia"@, wikipedia_page_url(lang@, page))],
    });
    (infobox, urls)
}


/// The address of the Wikidata page of entity `id` (such as `Q42`).
pub open spec fn wikidata_page_url(id: Seq<char>) -> Seq<char> {
    "https://www.wikidata.org/wiki/"@ + id
}

/// What `finish_infobox` needs of the answers: the Wikidata answer lists at
/// least one entity; a Wikipedia summary's extract is a text and its
/// thumbnail has a source text.
pub open spec fn answers_ok(wikidata: JsonValue, wikipedia: Option<JsonValue>) -> bool {
    &&& wikidata.field("entities"@) is Some
    &&& wikidata.field("entities"@).unwrap().members() is Some
    &&& wikidata.field("entities"@).unwrap().members().unwrap().len() > 0
    &&& wikipedia matches Some(w) ==> {
        &&& w.field("extract"@) matches Some(e) ==> e.text() is Some
        &&& w.field("thumbnail"@) matches Some(t) ==> t.field("source"@) is Some && t.field(
            "source"@,
        ).unwrap().text() is Some
    }
}

/// Whether `finish_infobox` can read the answers.
pub fn answers_are_ok(wikidata: &JsonValue, wikipedia: Option<&JsonValue>) -> (r: bool)
    ensures
        r == answers_ok(*wikidata, match wikipedia { Some(w) => Some(*w), None => None }),
{
    let entities_ok = match wikidata.get("entities") {
        None => false,
        Some(e) => match e.as_object() {
            None => false,
            Some(members) => members.len() > 0,
        },
    };
    if !entities_ok {
        return false;
    }
    match wikipedia {
        None => true,
        Some(w) => {
            let extract_ok = match w.get("extract") {
                None => true,
                Some(e) => e.as_str().is_some(),
            };
            let thumbnail_ok = match w.get("thumbnail") {
                None => true,
                Some(t) => match t.get("source") {
                    None => false,
                    Some(src) => src.as_str().is_some(),
                },
            };
            extract_ok && thumbnail_ok
        },
    }
}

/// The first entity of a Wikidata answer: its number and its document.
pub open spec fn first_entity(wikidata: JsonValue) -> (String, JsonValue) {
    wikidata.field("entities"@).unwrap().members().unwrap()[0]
}

/// Completes an infobox with the answers fetched: a link to the Wikidata page
/// of the entity the answer names (which may differ from the one asked for,
/// after a redirect), and from the Wikipedia summary, if any, its extract and
/// its picture. Gives the entity's Wikidata document.
pub fn finish_infobox<'a>(
    infobox: &mut InfoBox,
    wikidata: &'a JsonValue,
    wikipedia: Option<&JsonValue>,
) -> (r: &'a JsonValue)
    requires
        answers_ok(*wikidata, match wikipedia { Some(w) => Some(*w), None => None }),
    ensures
        *r == first_entity(*wikidata).1,
        final(infobox).title == old(infobox).title,
        final(infobox).attributes == old(infobox).attributes,
        final(infobox).url_texts() == old(infobox).url_texts().push(
            ("wikidata"@, wikidata_page_url(first_entity(*wikidata).0@)),
        ),
        final(infobox).content@ == match wikipedia {
            Some(w) => match w.field("extract"@) {
                Some(e) => e.text().unwrap(),
                None => old(infobox).content@,
            },
            None => old(infobox).content@,
        },
        final(infobox).thumbnail@ == match wikipedia {
            Some(w) => match w.field("thumbnail"@) {
                Some(t) => t.field("source"@).unwrap().text().unwrap(),
                None => old(infobox).thumbnail@,
            },
            None => old(infobox).thumbnail@,
        },
{
    let wikidata_doc_meta = wikidata.get("entities").unwrap().as_object().unwrap();
    let wikidata_entry = &wikidata_doc_meta[0];
    let wikidata_doc = &wikidata_entry.1;
    let mut url = "https://www.wikidata.org/wiki/".to_string();
    url.append(wikidata_entry.0.as_str());
    infobox.add_url("wikidata", url.as_str());
    match wikipedia {
        None => {},
        Some(resp) => {
            match resp.get("extract") {
                None => {},
                Some(extract) => {
                    infobox.content = extract.as_str().unwrap().to_string();
                },
            }
            match resp.get("thumbnail") {
                None => {},
                Some(thumbnail_value) => {
                    infobox.thumbnail = thumbnail_value.get("source").unwrap().as_str().unwrap().to_string();
                },
            }
        },
    }
    wikidata_doc
}

} // verus!
