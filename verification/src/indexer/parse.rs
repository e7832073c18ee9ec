//! Turning a Wikidata item of the dump into the document the indexer writes.
use vstd::prelude::*;
use vstd::string::*;
use vstd::hash_map::StringHashMap;
use crate::json::JsonValue;
use crate::text::{parse_u64, u64_from_text, text_eq};
use crate::indexer::documents::{WikidataItem, Claim, WikiLabel, SiteLink, WDDocument, WDDocumentView};
use crate::indexer::instance_of::{InstanceOfMapping, InstanceOfType};
use crate::indexer::ranks::Ranks;

verus! {

broadcast use {vstd::std_specs::hash::group_hash_axioms, vstd::hash_map::group_hash_map_axioms};

/// The entity number a claim of class names, if any.
pub open spec fn class_id(c: Claim) -> Option<JsonValue> {
    c.mainsnak.datavalue.value.field("numeric-id"@)
}

/// The outcome of reading the classes of an item.
pub enum ClassScan {
    /// A class number is not a number.
    Broken,
    /// A class is one whose instances are skipped.
    Ignored,
    /// The classes to keep (not those kept out of the search index), and
    /// whether the item is searchable.
    Read { classes: Seq<u64>, searchable: bool },
}

/// Reading the classes (P31 claims) of an item in order.
pub open spec fn scan_classes(claims: Seq<Claim>, m: InstanceOfMapping) -> ClassScan
    decreases claims.len(),
{
    if claims.len() == 0 {
        ClassScan::Read { classes: Seq::empty(), searchable: true }
    } else {
        match scan_classes(claims.drop_last(), m) {
            ClassScan::Read { classes, searchable } => match class_id(claims.last()) {
                None => ClassScan::Read { classes, searchable },
                Some(v) => match v.u64_value() {
                    None => ClassScan::Broken,
                    Some(id) => if m.labels().contains_key(id) && m.labels()[id] == Seq::<char>::empty() {
                        ClassScan::Ignored
                    } else if m.not_indexed().contains(id) {
                        ClassScan::Read { classes, searchable: false }
                    } else {
                        ClassScan::Read { classes: classes.push(id), searchable }
                    },
                },
            },
            other => other,
        }
    }
}

proof fn lemma_scan_sticky(claims: Seq<Claim>, m: InstanceOfMapping, k: int)
    requires
        0 <= k <= claims.len(),
    ensures
        scan_classes(claims.take(k), m) is Broken ==> scan_classes(claims, m) is Broken,
        scan_classes(claims.take(k), m) is Ignored ==> scan_classes(claims, m) is Ignored,
    decreases claims.len(),
{
    if k == claims.len() {
        assert(claims.take(k) =~= claims);
    } else {
        assert(claims.drop_last().take(k) =~= claims.take(k));
        lemma_scan_sticky(claims.drop_last(), m, k);
    }
}

/// The entity number a claim's class names (when it names one).
pub open spec fn class_number(c: Claim) -> u64 {
    class_id(c).unwrap().u64_value().unwrap()
}

/// Whether a claim names a class that keeps its instances out of the search index.
pub open spec fn names_unsearchable_class(c: Claim, m: InstanceOfMapping) -> bool {
    class_id(c) is Some && m.not_indexed().contains(class_number(c))
}

/// Whether a claim names a class that is kept among the document's classes.
pub open spec fn names_kept_class(c: Claim, m: InstanceOfMapping) -> bool {
    class_id(c) is Some && !m.not_indexed().contains(class_number(c))
}

/// Reading the classes of an item, when none is skipped: the item is
/// searchable exactly when none of its classes keeps its instances out of
/// the search index, whatever label such a class has; the classes kept are,
/// in order, all the others; and every class named has a number and is not
/// one whose instances are skipped.
pub proof fn lemma_classes_read(claims: Seq<Claim>, m: InstanceOfMapping)
    ensures
        scan_classes(claims, m) matches ClassScan::Read { classes, searchable } ==> {
            &&& searchable <==> !exists|i: int| 0 <= i < claims.len() && names_unsearchable_class(#[trigger] claims[i], m)
            &&& classes == claims.filter(|c: Claim| names_kept_class(c, m)).map_values(|c: Claim| class_number(c))
            &&& forall|i: int| 0 <= i < claims.len() && class_id(#[trigger] claims[i]) is Some ==> {
                &&& class_id(claims[i]).unwrap().u64_value() is Some
                &&& !(m.labels().contains_key(class_number(claims[i])) && m.labels()[class_number(claims[i])]
                    == Seq::<char>::empty())
            }
        },
    decreases claims.len(),
{
    reveal(Seq::filter);
    if claims.len() > 0 {
        let rest = claims.drop_last();
        lemma_classes_read(rest, m);
        let last = claims.last();
        let z = claims.len() - 1;
        assert(claims[z] == last);
        assert forall|i: int| 0 <= i < z implies #[trigger] rest[i] == claims[i] by {}
        if let ClassScan::Read { classes, searchable } = scan_classes(claims, m) {
            let f = rest.filter(|c: Claim| names_kept_class(c, m));
            match scan_classes(rest, m) {
                ClassScan::Read { classes: c1, searchable: s1 } => {
                    assert(searchable <==> (s1 && !names_unsearchable_class(last, m)));
                    assert(searchable <==> !exists|i: int| 0 <= i < claims.len() && names_unsearchable_class(
                        #[trigger] claims[i],
                        m,
                    )) by {
                        if exists|i: int| 0 <= i < claims.len() && names_unsearchable_class(#[trigger] claims[i], m) {
                            let i = choose|i: int| 0 <= i < claims.len() && names_unsearchable_class(#[trigger] claims[i], m);
                            if i < z {
                                assert(names_unsearchable_class(rest[i], m));
                            }
                        }
                        if exists|i: int| 0 <= i < rest.len() && names_unsearchable_class(#[trigger] rest[i], m) {
                            let i = choose|i: int| 0 <= i < rest.len() && names_unsearchable_class(#[trigger] rest[i], m);
                            assert(names_unsearchable_class(claims[i], m));
                        }
                    }
                    if names_kept_class(last, m) {
                        assert(f.push(last).map_values(|c: Claim| class_number(c)) =~= f.map_values(
                            |c: Claim| class_number(c),
                        ).push(class_number(last)));
                    }
                    assert forall|i: int| 0 <= i < claims.len() && class_id(#[trigger] claims[i]) is Some implies {
                        &&& class_id(claims[i]).unwrap().u64_value() is Some
                        &&& !(m.labels().contains_key(class_number(claims[i])) && m.labels()[class_number(claims[i])]
                            == Seq::<char>::empty())
                    } by {
                        if i < z {
                            assert(class_id(rest[i]) is Some);
                        }
                    }
                },
                _ => {},
            }
        }
    }
}

/// All aliases become titles: the alias titles are, in order, every alias
/// of every language, each without language.
pub proof fn lemma_aliases_all_kept(aliases: Seq<(String, Vec<WikiLabel>)>)
    ensures
        alias_titles(aliases) == aliases.map_values(
            |a: (String, Vec<WikiLabel>)| a.1@.map_values(|w: WikiLabel| (Seq::<char>::empty(), w.value@)),
        ).flatten(),
    decreases aliases.len(),
{
    let f = |a: (String, Vec<WikiLabel>)| a.1@.map_values(|w: WikiLabel| (Seq::<char>::empty(), w.value@));
    let all = aliases.map_values(f);
    if aliases.len() > 0 {
        lemma_aliases_all_kept(aliases.drop_last());
        assert(aliases.drop_last().map_values(f) =~= all.drop_last());
        aliases.drop_last().map_values(f).lemma_flatten_and_flatten_alt_are_equivalent();
        assert(all.last() == f(aliases.last()));
        assert(all.flatten_alt() == all.drop_last().flatten_alt() + all.last());
    }
    all.lemma_flatten_and_flatten_alt_are_equivalent();
}

/// The titles of the labels: each with its language.
pub open spec fn label_titles(labels: Seq<(String, WikiLabel)>) -> Seq<(Seq<char>, Seq<char>)> {
    labels.map_values(|l: (String, WikiLabel)| (l.0@, l.1.value@))
}

/// The titles of the aliases, without language, in order.
pub open spec fn alias_titles(aliases: Seq<(String, Vec<WikiLabel>)>) -> Seq<(Seq<char>, Seq<char>)>
    decreases aliases.len(),
{
    if aliases.len() == 0 {
        Seq::empty()
    } else {
        alias_titles(aliases.drop_last()) + aliases.last().1@.map_values(
            |w: WikiLabel| (Seq::<char>::empty(), w.value@),
        )
    }
}

/// The texts seen before the pages: the label languages and the aliases.
pub open spec fn seen_texts(labels: Seq<(String, WikiLabel)>, aliases: Seq<(String, Vec<WikiLabel>)>) -> Set<Seq<char>> {
    labels.map_values(|l: (String, WikiLabel)| l.0@).to_set() + alias_titles(aliases).map_values(
        |t: (Seq<char>, Seq<char>)| t.1,
    ).to_set()
}

/// The page titles not seen before, without language, each once, in order;
/// and the texts seen after them.
pub open spec fn page_titles(sitelinks: Seq<(String, SiteLink)>, seen: Set<Seq<char>>) -> (Seq<(Seq<char>, Seq<char>)>, Set<Seq<char>>)
    decreases sitelinks.len(),
{
    if sitelinks.len() == 0 {
        (Seq::empty(), seen)
    } else {
        let (titles, seen1) = page_titles(sitelinks.drop_last(), seen);
        let t = sitelinks.last().1.title@;
        if seen1.contains(t) {
            (titles, seen1)
        } else {
            (titles.push((Seq::<char>::empty(), t)), seen1.insert(t))
        }
    }
}

/// The label in language `lang`, the first one if several.
pub open spec fn label_in(labels: Seq<(String, WikiLabel)>, lang: Seq<char>) -> Option<Seq<char>>
    decreases labels.len(),
{
    if labels.len() == 0 {
        None
    } else if labels[0].0@ == lang {
        Some(labels[0].1.value@)
    } else {
        label_in(labels.drop_first(), lang)
    }
}

/// The rank of entity `wid`, 0 without rank.
pub open spec fn rank_of(ranks: Map<u64, u64>, wid: u64) -> u64 {
    if ranks.contains_key(wid) {
        ranks[wid]
    } else {
        0
    }
}

/// What `parse_item` needs of an item: an id, whose number can be read
/// when it is an entity (`Q`), and class numbers that can be read up to
/// the first skipped class.
pub open spec fn item_ok(item: WikidataItem, m: InstanceOfMapping) -> bool {
    &&& item.id@.len() > 0
    &&& item.id@[0] == 'Q' ==> {
        &&& u64_from_text(item.id@.drop_first()) is Some
        &&& !(scan_classes(item.claims.p31@, m) is Broken)
    }
}

/// The document the indexer makes of an item, and its key (its English
/// label, or empty): `None` for an item that is not an entity (`Q`) or that
/// has a skipped class.
pub open spec fn parsed_item(ranks: Map<u64, u64>, m: InstanceOfMapping, item: WikidataItem) -> Option<(Seq<char>, WDDocumentView)> {
    if item.id@[0] != 'Q' {
        None
    } else {
        match scan_classes(item.claims.p31@, m) {
            ClassScan::Read { classes, searchable } => {
                let wid = u64_from_text(item.id@.drop_first()).unwrap();
                let seen = seen_texts(item.labels@, item.aliases@);
                let titles = label_titles(item.labels@) + alias_titles(item.aliases@) + page_titles(
                    item.sitelinks@,
                    seen,
                ).0;
                let sitelinks = item.sitelinks@.map_values(|s: (String, SiteLink)| (s.0@, s.1.title@));
                let key = match label_in(item.labels@, "en"@) {
                    Some(l) => l,
                    None => Seq::empty(),
                };
                Some(
                    (
                        key,
                        WDDocumentView {
                            wid,
                            rank: rank_of(ranks, wid),
                            instance_of: classes,
                            add_to_index: searchable,
                            titles,
                            sitelinks,
                        },
                    ),
                )
            },
            _ => None,
        }
    }
}

/// Whether `parse_item` can read `item`: it has an id, whose number can be
/// read when it is an entity (`Q`), as can its class numbers up to the first
/// skipped class.
pub fn item_is_ok(instance_of_mapping: &InstanceOfMapping, item: &WikidataItem) -> (r: bool)
    ensures
        r == item_ok(*item, *instance_of_mapping),
{
    let n = item.id.as_str().unicode_len();
    if n == 0 {
        return false;
    }
    if item.id.as_str().get_char(0) != 'Q' {
        return true;
    }
    let number = item.id.as_str().substring_char(1, n);
    assert(number@ =~= item.id@.drop_first());
    if parse_u64(number).is_none() {
        return false;
    }
    let claims = &item.claims.p31;
    let mut i: usize = 0;
    while i < claims.len()
        invariant
            i <= claims@.len(),
            claims@ == item.claims.p31@,
            item.id@.len() > 0,
            item.id@[0] == 'Q',
            u64_from_text(item.id@.drop_first()) is Some,
            scan_classes(claims@.take(i as int), *instance_of_mapping) is Read,
        decreases claims@.len() - i,
    {
        let claim = &claims[i];
        proof {
            assert(claims@.take(i + 1).drop_last() =~= claims@.take(i as int));
            assert(claims@.take(i + 1).last() == *claim);
            lemma_scan_sticky(claims@, *instance_of_mapping, i + 1);
        }
        match claim.mainsnak.datavalue.value.get("numeric-id") {
            None => {},
            Some(v) => match v.as_u64() {
                None => {
                    assert(scan_classes(claims@.take(i + 1), *instance_of_mapping) is Broken);
                    return false;
                },
                Some(id) => match instance_of_mapping.get(&id) {
                    InstanceOfType::IgnoreEntity => {
                        assert(scan_classes(claims@.take(i + 1), *instance_of_mapping) is Ignored);
                        return true;
                    },
                    _ => {},
                },
            },
        }
        i = i + 1;
    }
    assert(claims@.take(claims@.len() as int) =~= claims@);
    true
}

/// The document the indexer makes of a Wikidata item, with its key in the
/// pool (its English label, or empty). Items that are not entities (`Q`)
/// and items with a skipped class give `None`.
pub fn parse_item(ranks: &Ranks, instance_of_mapping: &InstanceOfMapping, item: &WikidataItem) -> (r: Option<(String, WDDocument)>)
    requires
        item_ok(*item, *instance_of_mapping),
    ensures
        r is Some == parsed_item(ranks.ranks@, *instance_of_mapping, *item) is Some,
        r matches Some((key, doc)) ==> parsed_item(ranks.ranks@, *instance_of_mapping, *item) == Some((key@, doc@)),
        r matches Some((key, doc)) ==> {
            &&& doc.add_to_index <==> !exists|i: int|
                0 <= i < item.claims.p31@.len() && names_unsearchable_class(
                    #[trigger] item.claims.p31@[i],
                    *instance_of_mapping,
                )
            &&& doc.instance_of@ == item.claims.p31@.filter(|c: Claim| names_kept_class(c, *instance_of_mapping)).map_values(
                |c: Claim| class_number(c),
            )
            &&& doc@.titles == label_titles(item.labels@) + item.aliases@.map_values(
                |a: (String, Vec<WikiLabel>)| a.1@.map_values(|w: WikiLabel| (Seq::<char>::empty(), w.value@)),
            ).flatten() + page_titles(item.sitelinks@, seen_texts(item.labels@, item.aliases@)).0
        },
{
    let n = item.id.as_str().unicode_len();
    if item.id.as_str().get_char(0) != 'Q' {
        return None;
    }
    let widtext = item.id.as_str().substring_char(1, n);
    assert(widtext@ =~= item.id@.drop_first());
    let wid = parse_u64(widtext).unwrap();
    let mut add_to_index = true;
    let mut instance_of: Vec<u64> = Vec::new();
    let claims = &item.claims.p31;
    let mut i: usize = 0;
    while i < claims.len()
        invariant
            i <= claims@.len(),
            claims@ == item.claims.p31@,
            item.id@[0] == 'Q',
            !(scan_classes(claims@, *instance_of_mapping) is Broken),
            scan_classes(claims@.take(i as int), *instance_of_mapping) == (ClassScan::Read {
                classes: instance_of@,
                searchable: add_to_index,
            }),
        decreases claims@.len() - i,
    {
        let claim = &claims[i];
        proof {
            assert(claims@.take(i + 1).drop_last() =~= claims@.take(i as int));
            assert(claims@.take(i + 1).last() == *claim);
        }
        match claim.mainsnak.datavalue.value.get("numeric-id") {
            None => {},
            Some(p31value) => {
                proof {
                    lemma_scan_sticky(claims@, *instance_of_mapping, i + 1);
                }
                let p31u = p31value.as_u64().unwrap();
                match instance_of_mapping.get(&p31u) {
                    InstanceOfType::IgnoreEntity => {
                        assert(class_id(*claim) == Some(*p31value));
                        assert(scan_classes(claims@.take(i + 1), *instance_of_mapping) is Ignored);
                        assert(scan_classes(claims@, *instance_of_mapping) is Ignored);
                        assert(item.claims.p31@ == claims@);
                        return None;
                    },
                    _ => {},
                }
                if instance_of_mapping.is_indexed(&p31u) {
                    add_to_index = false;
                } else {
                    instance_of.push(p31u);
                }
            },
        }
        i = i + 1;
    }
    assert(claims@.take(claims@.len() as int) =~= claims@);
    let entity_rank = ranks.get(wid);
    let mut wddocument = WDDocument::new(wid, entity_rank, instance_of, add_to_index);
    let mut seen: StringHashMap<bool> = StringHashMap::new();
    let mut j: usize = 0;
    while j < item.labels.len()
        invariant
            j <= item.labels@.len(),
            wddocument@.titles == label_titles(item.labels@.take(j as int)),
            seen@.dom() == item.labels@.take(j as int).map_values(|l: (String, WikiLabel)| l.0@).to_set(),
            wddocument@.sitelinks.len() == 0,
            wddocument.wid == wid,
            wddocument.rank == entity_rank,
            wddocument.add_to_index == add_to_index,
            wddocument.instance_of@ == instance_of@,
        decreases item.labels@.len() - j,
    {
        let language = &item.labels[j].0;
        let value = &item.labels[j].1;
        wddocument.titles.push((language.clone(), value.value.clone()));
        seen.insert(language.clone(), true);
        proof {
            assert(item.labels@.take(j + 1) =~= item.labels@.take(j as int).push(item.labels@[j as int]));
            assert(label_titles(item.labels@.take(j + 1)) =~= label_titles(item.labels@.take(j as int)).push(
                (language@, value.value@),
            ));
            assert(wddocument@.titles =~= label_titles(item.labels@.take(j + 1)));
            assert(item.labels@.take(j + 1).map_values(|l: (String, WikiLabel)| l.0@) =~= item.labels@.take(
                j as int,
            ).map_values(|l: (String, WikiLabel)| l.0@).push(language@));
            item.labels@.take(j as int).map_values(|l: (String, WikiLabel)| l.0@).lemma_push_to_set_commute(language@);
            assert(seen@.dom() =~= item.labels@.take(j + 1).map_values(|l: (String, WikiLabel)| l.0@).to_set());
        }
        j = j + 1;
    }
    assert(item.labels@.take(item.labels@.len() as int) =~= item.labels@);
    let ghost label_part = label_titles(item.labels@);
    let ghost label_langs = item.labels@.map_values(|l: (String, WikiLabel)| l.0@).to_set();
    let mut a: usize = 0;
    while a < item.aliases.len()
        invariant
            a <= item.aliases@.len(),
            wddocument@.titles == label_part + alias_titles(item.aliases@.take(a as int)),
            seen@.dom() == label_langs + alias_titles(item.aliases@.take(a as int)).map_values(
                |t: (Seq<char>, Seq<char>)| t.1,
            ).to_set(),
            wddocument@.sitelinks.len() == 0,
            wddocument.wid == wid,
            wddocument.rank == entity_rank,
            wddocument.add_to_index == add_to_index,
            wddocument.instance_of@ == instance_of@,
        decreases item.aliases@.len() - a,
    {
        let list_of_values = &item.aliases[a].1;
        let ghost before_titles = wddocument@.titles;
        let ghost before_seen = seen@.dom();
        let mut b: usize = 0;
        while b < list_of_values.len()
            invariant
                b <= list_of_values@.len(),
                wddocument@.titles == before_titles + list_of_values@.take(b as int).map_values(
                    |w: WikiLabel| (Seq::<char>::empty(), w.value@),
                ),
                seen@.dom() == before_seen + list_of_values@.take(b as int).map_values(|w: WikiLabel| w.value@).to_set(),
                wddocument@.sitelinks.len() == 0,
                wddocument.wid == wid,
                wddocument.rank == entity_rank,
                wddocument.add_to_index == add_to_index,
                wddocument.instance_of@ == instance_of@,
            decreases list_of_values@.len() - b,
        {
            let value = &list_of_values[b];
            seen.insert(value.value.clone(), true);
            let ghost old_titles = wddocument.titles@;
            wddocument.titles.push(("".to_string(), value.value.clone()));
            proof {
                assert(crate::indexer::documents::pair_texts(wddocument.titles@) =~= crate::indexer::documents::pair_texts(old_titles).push((""@, value.value@)));
                assert(list_of_values@.take(b + 1).map_values(|w: WikiLabel| (Seq::<char>::empty(), w.value@)) =~= list_of_values@.take(b as int).map_values(|w: WikiLabel| (Seq::<char>::empty(), w.value@)).push((Seq::<char>::empty(), value.value@)));
                reveal_strlit("");
                assert(""@ =~= Seq::<char>::empty());
                assert(list_of_values@.take(b + 1) =~= list_of_values@.take(b as int).push(*value));
                assert(wddocument@.titles =~= before_titles + list_of_values@.take(b + 1).map_values(
                    |w: WikiLabel| (Seq::<char>::empty(), w.value@),
                ));
                assert(list_of_values@.take(b + 1).map_values(|w: WikiLabel| w.value@) =~= list_of_values@.take(
                    b as int,
                ).map_values(|w: WikiLabel| w.value@).push(value.value@));
                list_of_values@.take(b as int).map_values(|w: WikiLabel| w.value@).lemma_push_to_set_commute(value.value@);
                assert(seen@.dom() =~= before_seen + list_of_values@.take(b + 1).map_values(|w: WikiLabel| w.value@).to_set());
            }
            b = b + 1;
        }
        proof {
            assert(list_of_values@.take(list_of_values@.len() as int) =~= list_of_values@);
            assert(item.aliases@.take(a + 1).drop_last() =~= item.aliases@.take(a as int));
            assert(item.aliases@.take(a + 1).last() == item.aliases@[a as int]);
            let prev = alias_titles(item.aliases@.take(a as int));
            let added = list_of_values@.map_values(|w: WikiLabel| (Seq::<char>::empty(), w.value@));
            assert(alias_titles(item.aliases@.take(a + 1)) == prev + added);
            assert(wddocument@.titles =~= label_part + (prev + added));
            assert((prev + added).map_values(|t: (Seq<char>, Seq<char>)| t.1) =~= prev.map_values(
                |t: (Seq<char>, Seq<char>)| t.1,
            ) + list_of_values@.map_values(|w: WikiLabel| w.value@));
            vstd::seq_lib::seq_to_set_distributes_over_add(
                prev.map_values(|t: (Seq<char>, Seq<char>)| t.1),
                list_of_values@.map_values(|w: WikiLabel| w.value@),
            );
            assert(seen@.dom() =~= label_langs + alias_titles(item.aliases@.take(a + 1)).map_values(
                |t: (Seq<char>, Seq<char>)| t.1,
            ).to_set());
        }
        a = a + 1;
    }
    assert(item.aliases@.take(item.aliases@.len() as int) =~= item.aliases@);
    let ghost seen0 = seen@.dom();
    assert(seen0 == seen_texts(item.labels@, item.aliases@));
    let ghost before_pages = wddocument@.titles;
    let mut s: usize = 0;
    while s < item.sitelinks.len()
        invariant
            s <= item.sitelinks@.len(),
            wddocument@.titles == before_pages + page_titles(item.sitelinks@.take(s as int), seen0).0,
            seen@.dom() == page_titles(item.sitelinks@.take(s as int), seen0).1,
            wddocument@.sitelinks == item.sitelinks@.take(s as int).map_values(
                |x: (String, SiteLink)| (x.0@, x.1.title@),
            ),
            wddocument.wid == wid,
            wddocument.rank == entity_rank,
            wddocument.add_to_index == add_to_index,
            wddocument.instance_of@ == instance_of@,
        decreases item.sitelinks@.len() - s,
    {
        let wikiname = &item.sitelinks[s].0;
        let value = &item.sitelinks[s].1;
        proof {
            assert(item.sitelinks@.take(s + 1).drop_last() =~= item.sitelinks@.take(s as int));
            assert(item.sitelinks@.take(s + 1).last() == item.sitelinks@[s as int]);
        }
        let ghost old_sites = wddocument.sitelinks@;
        let ghost old_titles = wddocument.titles@;
        wddocument.sitelinks.push((wikiname.clone(), value.title.clone()));
        proof {
            assert(crate::indexer::documents::pair_texts(wddocument.sitelinks@) =~= crate::indexer::documents::pair_texts(old_sites).push((wikiname@, value.title@)));
            assert(item.sitelinks@.take(s + 1).map_values(|x: (String, SiteLink)| (x.0@, x.1.title@)) =~= item.sitelinks@.take(s as int).map_values(|x: (String, SiteLink)| (x.0@, x.1.title@)).push((wikiname@, value.title@)));
        }
        if !seen.contains_key(value.title.as_str()) {
            seen.insert(value.title.clone(), true);
            wddocument.titles.push(("".to_string(), value.title.clone()));
            proof {
                reveal_strlit("");
                assert(""@ =~= Seq::<char>::empty());
                assert(crate::indexer::documents::pair_texts(wddocument.titles@) =~= crate::indexer::documents::pair_texts(old_titles).push((Seq::<char>::empty(), value.title@)));
                assert(seen@.dom() =~= page_titles(item.sitelinks@.take(s + 1), seen0).1);
            }
        }
        proof {
            assert(wddocument@.titles =~= before_pages + page_titles(item.sitelinks@.take(s + 1), seen0).0);
            assert(wddocument@.sitelinks =~= item.sitelinks@.take(s + 1).map_values(
                |x: (String, SiteLink)| (x.0@, x.1.title@),
            ));
        }
        s = s + 1;
    }
    assert(item.sitelinks@.take(item.sitelinks@.len() as int) =~= item.sitelinks@);
    let mut label_en = "".to_string();
    let mut e: usize = 0;
    let mut found = false;
    proof {
        reveal_strlit("");
        assert(item.labels@.skip(0) =~= item.labels@);
    }
    while e < item.labels.len() && !found
        invariant
            e <= item.labels@.len(),
            found ==> label_in(item.labels@, "en"@) == Some(label_en@),
            !found ==> label_in(item.labels@, "en"@) == label_in(item.labels@.skip(e as int), "en"@),
            !found ==> label_en@ == Seq::<char>::empty(),
        decreases item.labels@.len() - e + if found { 0int } else { 1int },
    {
        proof {
            assert(item.labels@.skip(e as int)[0] == item.labels@[e as int]);
            assert(item.labels@.skip(e as int).drop_first() =~= item.labels@.skip(e + 1));
        }
        if text_eq(item.labels[e].0.as_str(), "en") {
            label_en = item.labels[e].1.value.clone();
            found = true;
        } else {
            e = e + 1;
        }
    }
    proof {
        lemma_classes_read(item.claims.p31@, *instance_of_mapping);
        lemma_aliases_all_kept(item.aliases@);
    }
    Some((label_en, wddocument))
}

} // verus!
