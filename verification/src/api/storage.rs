//! Reading an entity back from its stored body: labels by language and page
//! titles by wiki site.
use vstd::prelude::*;
use crate::json::JsonValue;
use crate::api::string_to_id::StringToId;
use crate::text_map::TextMap;
use crate::facet::{Facet, facet_text_ok, facet_encoding};
use vstd::string::*;

verus! {

/// The numbers stored for one label: one number, or an array of numbers.
pub open spec fn entry_ids_ok(e: JsonValue) -> bool {
    match e.items() {
        Some(items) => forall|j: int| 0 <= j < items.len() ==> (#[trigger] items[j]).u64_value() is Some,
        None => e.u64_value() is Some,
    }
}

/// The numbers stored for one label, in order.
pub open spec fn entry_ids(e: JsonValue) -> Seq<u64> {
    match e.items() {
        Some(items) => items.map_values(|x: JsonValue| x.u64_value().unwrap()),
        None => seq![e.u64_value().unwrap()],
    }
}

/// `m` with each of `ids`, turned into text by `dict`, mapped to `label`.
pub open spec fn insert_ids(
    m: Map<Seq<char>, Seq<char>>,
    ids: Seq<u64>,
    dict: StringToId,
    label: Seq<char>,
) -> Map<Seq<char>, Seq<char>>
    decreases ids.len(),
{
    if ids.len() == 0 {
        m
    } else {
        insert_ids(m, ids.drop_last(), dict, label).insert(dict.text_of(ids.last()), label)
    }
}

/// The first `n` labels and their numbers are well formed.
pub open spec fn labels_ok(labels: Seq<JsonValue>, ids: Seq<JsonValue>) -> bool {
    forall|i: int|
        0 <= i < labels.len() && i < ids.len() ==> (#[trigger] labels[i]).text() is Some
            && entry_ids_ok(ids[i])
}

/// The map from texts to labels that the first `n` pairs of `labels` and
/// `ids` describe.
pub open spec fn label_map_upto(
    labels: Seq<JsonValue>,
    ids: Seq<JsonValue>,
    dict: StringToId,
    n: nat,
) -> Map<Seq<char>, Seq<char>>
    decreases n,
{
    if n == 0 {
        Map::empty()
    } else {
        insert_ids(
            label_map_upto(labels, ids, dict, (n - 1) as nat),
            entry_ids(ids[n - 1]),
            dict,
            labels[n - 1].text().unwrap(),
        )
    }
}

/// The map from texts to labels that `labels` and `ids`, taken in pairs, describe.
pub open spec fn label_map(labels: Seq<JsonValue>, ids: Seq<JsonValue>, dict: StringToId) -> Map<
    Seq<char>,
    Seq<char>,
> {
    let n = if labels.len() <= ids.len() {
        labels.len()
    } else {
        ids.len()
    };
    label_map_upto(labels, ids, dict, n)
}

/// Whether the numbers of one entry hold `id`: `None` when a number is
/// missing before `id` is found.
pub open spec fn ids_scan(items: Seq<JsonValue>, id: u64, j: int) -> Option<bool>
    decreases items.len() - j,
{
    if j < 0 || j >= items.len() {
        Some(false)
    } else {
        match items[j].u64_value() {
            None => None,
            Some(x) => if x == id {
                Some(true)
            } else {
                ids_scan(items, id, j + 1)
            },
        }
    }
}

/// Whether one entry (a number or an array of numbers) holds `id`.
pub open spec fn entry_scan(e: JsonValue, id: u64) -> Option<bool> {
    match e.items() {
        Some(items) => ids_scan(items, id, 0),
        None => match e.u64_value() {
            None => None,
            Some(x) => Some(x == id),
        },
    }
}

/// The position of the first entry, from `i` on, that holds `id`
/// (`Some(None)` when none does, `None` when an entry is broken before it).
pub open spec fn position_scan(entries: Seq<JsonValue>, id: u64, i: int) -> Option<Option<int>>
    decreases entries.len() - i,
{
    if i < 0 || i >= entries.len() {
        Some(None)
    } else {
        match entry_scan(entries[i], id) {
            None => None,
            Some(true) => Some(Some(i)),
            Some(false) => position_scan(entries, id, i + 1),
        }
    }
}

/// What `zz` needs of a stored body to answer without failing.
pub open spec fn lookup_ok(body: JsonValue, id: u64, label_key: Seq<char>, indice_key: Seq<char>) -> bool {
    &&& body.field(label_key) is Some
    &&& body.field(indice_key) is Some
    &&& body.field(indice_key).unwrap().items() is Some
    &&& position_scan(body.field(indice_key).unwrap().items().unwrap(), id, 0) is Some
    &&& position_scan(body.field(indice_key).unwrap().items().unwrap(), id, 0).unwrap() matches Some(
        i,
    ) ==> {
        &&& body.field(label_key).unwrap().element(i) is Some
        &&& body.field(label_key).unwrap().element(i).unwrap().text() is Some
    }
}

/// The label of the first entry of `indice_key` that holds `id`, taken from
/// the same position of `label_key`.
pub open spec fn lookup(body: JsonValue, id: u64, label_key: Seq<char>, indice_key: Seq<char>) -> Option<
    Seq<char>,
> {
    match position_scan(body.field(indice_key).unwrap().items().unwrap(), id, 0).unwrap() {
        None => None,
        Some(i) => Some(body.field(label_key).unwrap().element(i).unwrap().text().unwrap()),
    }
}

/// What `document_entity_to_map` needs of a stored body.
pub open spec fn body_ok(body: JsonValue) -> bool {
    &&& body.field(seq!['a']) is Some && body.field(seq!['a']).unwrap().items() is Some
    &&& body.field(seq!['b']) is Some && body.field(seq!['b']).unwrap().items() is Some
    &&& body.field(seq!['c']) is Some && body.field(seq!['c']).unwrap().items() is Some
    &&& body.field(seq!['d']) is Some && body.field(seq!['d']).unwrap().items() is Some
    &&& labels_ok(
        body.field(seq!['a']).unwrap().items().unwrap(),
        body.field(seq!['c']).unwrap().items().unwrap(),
    )
    &&& labels_ok(
        body.field(seq!['b']).unwrap().items().unwrap(),
        body.field(seq!['d']).unwrap().items().unwrap(),
    )
}

/// The position of the first space of `s`, if any.
pub open spec fn first_space(s: Seq<char>) -> Option<int> {
    if exists|i: int| 0 <= i < s.len() && s[i] == ' ' {
        Some(choose|i: int| 0 <= i < s.len() && s[i] == ' ' && forall|j: int| 0 <= j < i ==> s[j] != ' ')
    } else {
        None
    }
}

/// How a query names a facet: `"/facet rest"` is the query `rest` within
/// the facet `/facet`; any other query is searched as it is.
pub open spec fn query_facet_split(q: Seq<char>) -> (Seq<char>, Option<Seq<char>>) {
    match first_space(q) {
        None => (q, None),
        Some(p) => if q[0] != '/' {
            (q, None)
        } else {
            (q.subrange(p + 1, q.len() as int), Some(facet_encoding(q.subrange(0, p))))
        },
    }
}

/// Whether one stored entry (a number or an array of numbers) holds `id`;
/// `None` when a number is missing before `id` is found.
fn scan_entry(e: &JsonValue, id: u64) -> (r: Option<bool>)
    ensures
        r == entry_scan(*e, id),
{
    match e.as_array() {
        Some(items) => {
            let mut j: usize = 0;
            while j < items.len()
                invariant
                    e.items() == Some(items@),
                    j <= items@.len(),
                    ids_scan(items@, id, 0) == ids_scan(items@, id, j as int),
                decreases items@.len() - j,
            {
                match items[j].as_u64() {
                    None => return None,
                    Some(x) => {
                        if x == id {
                            return Some(true);
                        }
                    },
                }
                j = j + 1;
            }
            Some(false)
        },
        None => match e.as_u64() {
            None => None,
            Some(x) => Some(x == id),
        },
    }
}

/// Whether `zz` can look `look_for_id` up in the entries `indice_key` of
/// `body` and read the label at the same position of `label_key`.
pub fn lookup_is_ok(body: &JsonValue, look_for_id: u64, label_key: &str, indice_key: &str) -> (r: bool)
    ensures
        r == lookup_ok(*body, look_for_id, label_key@, indice_key@),
{
    let labels = match body.get(label_key) {
        None => return false,
        Some(l) => l,
    };
    let indices = match body.get(indice_key) {
        None => return false,
        Some(v) => v,
    };
    let entries = match indices.as_array() {
        None => return false,
        Some(a) => a,
    };
    let mut found: Option<usize> = None;
    let mut i: usize = 0;
    while i < entries.len() && found.is_none()
        invariant
            body.field(indice_key@) == Some(*indices),
            indices.items() == Some(entries@),
            i <= entries@.len(),
            found is None ==> position_scan(entries@, look_for_id, 0) == position_scan(
                entries@,
                look_for_id,
                i as int,
            ),
            found matches Some(k) ==> position_scan(entries@, look_for_id, 0) == Some(Some(k as int)),
        decreases entries@.len() - i,
    {
        match scan_entry(&entries[i], look_for_id) {
            None => return false,
            Some(true) => {
                found = Some(i);
            },
            Some(false) => {},
        }
        i = i + 1;
    }
    match found {
        None => true,
        Some(k) => match labels.at(k) {
            None => false,
            Some(l) => l.as_str().is_some(),
        },
    }
}

/// Whether the numbers of one stored entry can all be read.
fn entry_ids_are_ok(e: &JsonValue) -> (r: bool)
    ensures
        r == entry_ids_ok(*e),
{
    match e.as_array() {
        Some(items) => {
            let mut j: usize = 0;
            while j < items.len()
                invariant
                    e.items() == Some(items@),
                    j <= items@.len(),
                    forall|k: int| 0 <= k < j ==> (#[trigger] items@[k]).u64_value() is Some,
                decreases items@.len() - j,
            {
                if items[j].as_u64().is_none() {
                    return false;
                }
                j = j + 1;
            }
            true
        },
        None => e.as_u64().is_some(),
    }
}

/// Whether each label, up to the shorter of the two lists, is a text and
/// its entry holds numbers only.
fn labels_are_ok(labels: &Vec<JsonValue>, ids: &Vec<JsonValue>) -> (r: bool)
    ensures
        r == labels_ok(labels@, ids@),
{
    let mut i: usize = 0;
    while i < labels.len() && i < ids.len()
        invariant
            i <= labels@.len(),
            i <= ids@.len(),
            forall|k: int| 0 <= k < i ==> (#[trigger] labels@[k]).text() is Some && entry_ids_ok(ids@[k]),
        decreases labels@.len() - i,
    {
        if labels[i].as_str().is_none() || !entry_ids_are_ok(&ids[i]) {
            return false;
        }
        i = i + 1;
    }
    true
}

/// The array member `key` of a body, if there is one.
fn array_member<'a>(body: &'a JsonValue, key: &str) -> (r: Option<&'a Vec<JsonValue>>)
    ensures
        r matches Some(v) ==> body.field(key@) is Some && body.field(key@).unwrap().items() == Some(v@),
        r is None ==> !(body.field(key@) is Some && body.field(key@).unwrap().items() is Some),
{
    match body.get(key) {
        None => None,
        Some(v) => v.as_array(),
    }
}

/// Whether a stored body can be decoded whole by `document_entity_to_map`.
pub fn body_is_ok(body: &JsonValue) -> (r: bool)
    ensures
        r == body_ok(*body),
{
    proof {
        reveal_strlit("a");
        reveal_strlit("b");
        reveal_strlit("c");
        reveal_strlit("d");
        assert("a"@ =~= seq!['a']);
        assert("b"@ =~= seq!['b']);
        assert("c"@ =~= seq!['c']);
        assert("d"@ =~= seq!['d']);
    }
    match (array_member(body, "a"), array_member(body, "b"), array_member(body, "c"), array_member(body, "d")) {
        (Some(a), Some(b), Some(c), Some(d)) => labels_are_ok(a, c) && labels_are_ok(b, d),
        _ => false,
    }
}

/// The labels of an entity by language, and its page titles by wiki site.
pub struct DocumentEntity {
    labels: TextMap<String>,
    wikisites: TextMap<String>,
}

impl DocumentEntity {
    /// The labels, by language.
    pub closed spec fn label_texts(&self) -> Map<Seq<char>, Seq<char>> {
        self.labels@.map_values(|s: String| s@)
    }

    /// The page titles, by wiki site.
    pub closed spec fn wikisite_texts(&self) -> Map<Seq<char>, Seq<char>> {
        self.wikisites@.map_values(|s: String| s@)
    }

    /// The labels, by language.
    pub fn get_labels(&self) -> (r: &TextMap<String>)
        ensures
            r@.map_values(|s: String| s@) == self.label_texts(),
    {
        &self.labels
    }

    /// The page titles, by wiki site.
    pub fn get_wikisites(&self) -> (r: &TextMap<String>)
        ensures
            r@.map_values(|s: String| s@) == self.wikisite_texts(),
    {
        &self.wikisites
    }
}

/// The part of the search storage that reads stored entities: the
/// dictionaries of languages and wiki sites the entities were written with.
pub struct TantivyStorage {
    label_to_id: StringToId,
    wikisite_to_id: StringToId,
}

impl TantivyStorage {
    /// The dictionary of languages.
    pub closed spec fn languages(&self) -> StringToId {
        self.label_to_id
    }

    /// The dictionary of wiki sites.
    pub closed spec fn wikisites(&self) -> StringToId {
        self.wikisite_to_id
    }

    /// A storage reading entities with these dictionaries.
    pub fn new(label_to_id: StringToId, wikisite_to_id: StringToId) -> (r: TantivyStorage)
        ensures
            r.languages() == label_to_id,
            r.wikisites() == wikisite_to_id,
    {
        TantivyStorage { label_to_id, wikisite_to_id }
    }

    /// The languages the storage knows, once each.
    pub fn get_languages(&self) -> (r: Vec<String>)
        requires
            self.languages().wf(),
        ensures
            crate::sorting::distinct_texts(r@),
            forall|i: int| 0 <= i < r@.len() ==> self.languages().ids().contains_key(#[trigger] r@[i]@),
            forall|k: Seq<char>| #[trigger] self.languages().ids().contains_key(k) ==> crate::text::texts(
                r@,
            ).contains(k),
    {
        self.label_to_id.keys()
    }

    /// Splits a query `"/facet rest"` into the query `rest` and the facet
    /// `/facet`; any other query is kept whole, without facet. A query that
    /// starts with a space has an empty first word, which cannot be read:
    /// callers must not pass one.
    pub fn get_query_and_facet(&self, query: String) -> (r: (String, Option<Facet>))
        requires
            query@.len() == 0 || query@[0] != ' ',
        ensures
            r.0@ == query_facet_split(query@).0,
            r.1 is Some == query_facet_split(query@).1 is Some,
            r.1 matches Some(f) ==> query_facet_split(query@).1 == Some(f@),
    {
        let n = query.as_str().unicode_len();
        let mut p: usize = 0;
        while p < n && query.as_str().get_char(p) != ' '
            invariant
                p <= n,
                n == query@.len(),
                forall|j: int| 0 <= j < p ==> query@[j] != ' ',
            decreases n - p,
        {
            p = p + 1;
        }
        if p == n {
            assert(!exists|i: int| 0 <= i < query@.len() && query@[i] == ' ');
            return (query, None);
        }
        proof {
            assert(query@[p as int] == ' ');
            let c = choose|i: int| 0 <= i < query@.len() && query@[i] == ' ' && forall|j: int|
                0 <= j < i ==> query@[j] != ' ';
            assert(c == p) by {
                if c < p {
                    assert(query@[c] != ' ');
                } else if c > p {
                    assert(query@[p as int] != ' ');
                }
            }
        }
        let first_word = query.as_str().substring_char(0, p);
        let rest = query.as_str().substring_char(p + 1, n);
        if first_word.get_char(0) != '/' {
            return (query, None);
        }
        match Facet::from_text(first_word) {
            Err(_) => (query, None),
            Ok(f) => (rest.to_string(), Some(f)),
        }
    }

    /// The map from texts to labels that `labels` and `ids`, taken in pairs,
    /// describe; each number is turned into text by `string_to_id`.
    fn blob(&self, labels: &Vec<JsonValue>, ids: &Vec<JsonValue>, string_to_id: &StringToId) -> (r:
        TextMap<String>)
        requires
            labels_ok(labels@, ids@),
        ensures
            r.wf(),
            r@.map_values(|s: String| s@) == label_map(labels@, ids@, *string_to_id),
    {
        let mut result: TextMap<String> = TextMap::new();
        let n = if labels.len() <= ids.len() {
            labels.len()
        } else {
            ids.len()
        };
        let ghost dict = *string_to_id;
        let mut i: usize = 0;
        assert(result@.map_values(|s: String| s@) =~= label_map_upto(labels@, ids@, dict, 0));
        while i < n
            invariant
                dict == *string_to_id,
                n <= labels@.len(),
                n <= ids@.len(),
                labels_ok(labels@, ids@),
                i <= n,
                result.wf(),
                result@.map_values(|s: String| s@) == label_map_upto(labels@, ids@, dict, i as nat),
            decreases n - i,
        {
            let label = labels[i].as_str().unwrap();
            let lang_value = &ids[i];
            let ghost before = label_map_upto(labels@, ids@, dict, i as nat);
            let ghost all_ids = entry_ids(ids@[i as int]);
            if lang_value.is_array() {
                let langs = lang_value.as_array().unwrap();
                let mut j: usize = 0;
                assert(all_ids.take(0) =~= Seq::<u64>::empty());
                assert(insert_ids(before, Seq::<u64>::empty(), dict, label@) == before);
                while j < langs.len()
                    invariant
                        dict == *string_to_id,
                        all_ids == langs@.map_values(|x: JsonValue| x.u64_value().unwrap()),
                        forall|k: int| 0 <= k < langs@.len() ==> (#[trigger] langs@[k]).u64_value() is Some,
                        j <= langs@.len(),
                        result.wf(),
                        result@.map_values(|s: String| s@) == insert_ids(
                            before,
                            all_ids.take(j as int),
                            dict,
                            label@,
                        ),
                    decreases langs@.len() - j,
                {
                    let id = langs[j].as_u64().unwrap();
                    let ghost old_map = result@;
                    result.insert(string_to_id.get_string(id), label.to_string());
                    proof {
                        assert(all_ids.take(j + 1).drop_last() =~= all_ids.take(j as int));
                        assert(all_ids.take(j + 1).last() == id);
                        assert(result@.map_values(|s: String| s@) =~= old_map.map_values(
                            |s: String| s@,
                        ).insert(dict.text_of(id), label@));
                    }
                    j = j + 1;
                }
                assert(all_ids.take(langs@.len() as int) =~= all_ids);
                assert(result@.map_values(|s: String| s@) == insert_ids(before, all_ids, dict, label@));
            } else {
                let id = lang_value.as_u64().unwrap();
                let ghost old_map = result@;
                result.insert(string_to_id.get_string(id), label.to_string());
                proof {
                    assert(all_ids.drop_last() =~= Seq::<u64>::empty());
                    assert(all_ids.last() == id);
                    assert(insert_ids(before, Seq::<u64>::empty(), dict, label@) == before);
                    assert(result@.map_values(|s: String| s@) =~= old_map.map_values(
                        |s: String| s@,
                    ).insert(dict.text_of(id), label@));
                }
            }
            assert(label_map_upto(labels@, ids@, dict, (i + 1) as nat) == insert_ids(
                before,
                all_ids,
                dict,
                labels@[i as int].text().unwrap(),
            ));
            assert(result@.map_values(|s: String| s@) == insert_ids(before, all_ids, dict, label@));
            i = i + 1;
        }
        result
    }

    /// The labels and page titles of an entity, from its stored body.
    pub fn document_entity_to_map(&self, body: &JsonValue) -> (r: DocumentEntity)
        requires
            body_ok(*body),
        ensures
            r.label_texts() == label_map(
                body.field(seq!['a']).unwrap().items().unwrap(),
                body.field(seq!['c']).unwrap().items().unwrap(),
                self.languages(),
            ),
            r.wikisite_texts() == label_map(
                body.field(seq!['b']).unwrap().items().unwrap(),
                body.field(seq!['d']).unwrap().items().unwrap(),
                self.wikisites(),
            ),
    {
        proof {
            reveal_strlit("a");
            reveal_strlit("b");
            reveal_strlit("c");
            reveal_strlit("d");
            assert("a"@ =~= seq!['a']);
            assert("b"@ =~= seq!['b']);
            assert("c"@ =~= seq!['c']);
            assert("d"@ =~= seq!['d']);
        }
        let labels = body.get("a").unwrap().as_array().unwrap();
        let labels_languages = body.get("c").unwrap().as_array().unwrap();
        let wikisites = body.get("b").unwrap().as_array().unwrap();
        let wikisites_ids = body.get("d").unwrap().as_array().unwrap();
        DocumentEntity {
            labels: self.blob(labels, labels_languages, &self.label_to_id),
            wikisites: self.blob(wikisites, wikisites_ids, &self.wikisite_to_id),
        }
    }

    /// Looks for `look_for_id` in the entries `indice_key` of a stored body
    /// and gives the label at the same position of `label_key`.
    pub fn zz(&self, body: &JsonValue, look_for_id: u64, label_key: &str, indice_key: &str) -> (r:
        Option<String>)
        requires
            lookup_ok(*body, look_for_id, label_key@, indice_key@),
        ensures
            r matches Some(s) ==> lookup(*body, look_for_id, label_key@, indice_key@) == Some(s@),
            r is None ==> lookup(*body, look_for_id, label_key@, indice_key@) is None,
    {
        let labels = body.get(label_key).unwrap();
        let indice_vec = body.get(indice_key).unwrap().as_array().unwrap();
        let ghost entries = indice_vec@;
        let mut found_indice: Option<usize> = None;
        let mut i: usize = 0;
        while i < indice_vec.len() && found_indice.is_none()
            invariant
                entries == indice_vec@,
                i <= entries.len(),
                position_scan(entries, look_for_id, 0) is Some,
                found_indice is None ==> position_scan(entries, look_for_id, 0) == position_scan(
                    entries,
                    look_for_id,
                    i as int,
                ),
                found_indice matches Some(k) ==> position_scan(entries, look_for_id, 0) == Some(
                    Some(k as int),
                ),
            decreases entries.len() - i,
        {
            let indice = &indice_vec[i];
            let mut hit = false;
            if indice.is_array() {
                let inner = indice.as_array().unwrap();
                let ghost items = inner@;
                let mut j: usize = 0;
                while j < inner.len() && !hit
                    invariant
                        items == inner@,
                        j <= items.len(),
                        entry_scan(*indice, look_for_id) == ids_scan(items, look_for_id, 0),
                        entry_scan(*indice, look_for_id) is Some,
                        !hit ==> ids_scan(items, look_for_id, 0) == ids_scan(items, look_for_id, j as int),
                        hit ==> entry_scan(*indice, look_for_id) == Some(true),
                    decreases items.len() - j,
                {
                    let id = inner[j].as_u64().unwrap();
                    if look_for_id == id {
                        hit = true;
                    }
                    j = j + 1;
                }
                if !hit {
                    assert(entry_scan(*indice, look_for_id) == Some(false));
                }
            } else {
                let id = indice.as_u64().unwrap();
                if look_for_id == id {
                    hit = true;
                }
            }
            if hit {
                found_indice = Some(i);
            }
            i = i + 1;
        }
        match found_indice {
            Some(k) => Some(labels.at(k).unwrap().as_str().unwrap().to_string()),
            None => None,
        }
    }

    /// Whether the storage knows `language` and can look its label up in `body`.
    pub fn can_read_label(&self, body: &JsonValue, language: &str) -> (r: bool)
        ensures
            r == (self.languages().ids().contains_key(language@) && lookup_ok(
                *body,
                self.languages().ids()[language@],
                seq!['a'],
                seq!['c'],
            )),
    {
        proof {
            reveal_strlit("a");
            reveal_strlit("c");
            assert("a"@ =~= seq!['a']);
            assert("c"@ =~= seq!['c']);
        }
        if !self.label_to_id.contains_key(language) {
            return false;
        }
        let id = self.label_to_id.get(language.to_string());
        lookup_is_ok(body, id, "a", "c")
    }

    /// Whether the storage knows the wiki site `key` and can look its page up in `body`.
    pub fn can_read_sitelink(&self, body: &JsonValue, key: &str) -> (r: bool)
        ensures
            r == (self.wikisites().ids().contains_key(key@) && lookup_ok(
                *body,
                self.wikisites().ids()[key@],
                seq!['b'],
                seq!['d'],
            )),
    {
        proof {
            reveal_strlit("b");
            reveal_strlit("d");
            assert("b"@ =~= seq!['b']);
            assert("d"@ =~= seq!['d']);
        }
        if !self.wikisite_to_id.contains_key(key) {
            return false;
        }
        let id = self.wikisite_to_id.get(key.to_string());
        lookup_is_ok(body, id, "b", "d")
    }

    /// The label of an entity in `language` (a language the storage knows).
    pub fn get_label_from_document(&self, body: &JsonValue, language: &str) -> (r: Option<String>)
        requires
            self.languages().ids().contains_key(language@),
            lookup_ok(*body, self.languages().ids()[language@], seq!['a'], seq!['c']),
        ensures
            r matches Some(s) ==> lookup(*body, self.languages().ids()[language@], seq!['a'], seq!['c']) == Some(s@),
            r is None ==> lookup(*body, self.languages().ids()[language@], seq!['a'], seq!['c']) is None,
    {
        let id = self.label_to_id.get(language.to_string());
        proof {
            reveal_strlit("a");
            reveal_strlit("c");
            assert("a"@ =~= seq!['a']);
            assert("c"@ =~= seq!['c']);
        }
        self.zz(body, id, "a", "c")
    }

    /// The page title of an entity on wiki site `key` (a site the storage knows).
    pub fn get_sitelink_from_document(&self, body: &JsonValue, key: &str) -> (r: Option<String>)
        requires
            self.wikisites().ids().contains_key(key@),
            lookup_ok(*body, self.wikisites().ids()[key@], seq!['b'], seq!['d']),
        ensures
            r matches Some(s) ==> lookup(*body, self.wikisites().ids()[key@], seq!['b'], seq!['d']) == Some(s@),
            r is None ==> lookup(*body, self.wikisites().ids()[key@], seq!['b'], seq!['d']) is None,
    {
        let id = self.wikisite_to_id.get(key.to_string());
        proof {
            reveal_strlit("b");
            reveal_strlit("d");
            assert("b"@ =~= seq!['b']);
            assert("d"@ =~= seq!['d']);
        }
        self.zz(body, id, "b", "d")
    }
}

} // verus!
