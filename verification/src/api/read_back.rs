//! What the API reads back of a body that the indexer wrote: the label it
//! finds for a language (or the page it finds for a wiki site), and that the
//! whole body can be decoded.
use vstd::prelude::*;
use crate::json::{JsonValue, member_value};
use crate::text::{text_lt, lemma_text_lt_total};
use crate::sorting::{increasing_texts, sorted_texts_of, lemma_sorted_texts_exist};
use crate::indexer::write::{ids_json, keys_json, values_json, body_json, fold_labels, dict_get, insert_label};
use crate::api::storage::{
    ids_scan, entry_scan, entry_ids_ok, entry_ids, position_scan, lookup_ok, lookup, labels_ok, body_ok,
    insert_ids, label_map, label_map_upto,
};
use crate::api::string_to_id::{StringToId, id_map, lemma_saved_dictionary_reloads};
use crate::api::storage::TantivyStorage;
use crate::indexer::string_to_id::{StringToId as Numbering, lemma_ids_distinct};

verus! {

proof fn lemma_ids_scan(items: Seq<JsonValue>, id: u64, k: int)
    requires
        0 <= k <= items.len(),
        forall|j: int| 0 <= j < items.len() ==> (#[trigger] items[j]).u64_value() is Some,
    ensures
        ids_scan(items, id, k) == Some(
            exists|j: int| k <= j < items.len() && (#[trigger] items[j]).u64_value() == Some(id),
        ),
    decreases items.len() - k,
{
    if k < items.len() {
        lemma_ids_scan(items, id, k + 1);
        if items[k].u64_value() != Some(id) {
            assert((exists|j: int| k <= j < items.len() && (#[trigger] items[j]).u64_value() == Some(id))
                ==> (exists|j: int| k + 1 <= j < items.len() && (#[trigger] items[j]).u64_value() == Some(id)))
                by {
                if exists|j: int| k <= j < items.len() && (#[trigger] items[j]).u64_value() == Some(id) {
                    let j = choose|j: int| k <= j < items.len() && (#[trigger] items[j]).u64_value() == Some(id);
                    assert(j != k);
                }
            }
        }
    }
}

/// A stored entry written for the numbers `ids` holds exactly those numbers.
proof fn lemma_entry_scan(e: JsonValue, ids: Seq<u64>, id: u64)
    requires
        ids_json(e, ids),
    ensures
        entry_scan(e, id) == Some(ids.contains(id)),
        entry_ids_ok(e),
{
    if ids.len() == 1 {
        assert(ids.contains(id) <==> ids[0] == id) by {
            if ids.contains(id) {
                let j = choose|j: int| 0 <= j < ids.len() && ids[j] == id;
                assert(j == 0);
            }
        }
    } else {
        let items = e.items().unwrap();
        let nums = items.map_values(|x: JsonValue| x.u64_value().unwrap());
        assert forall|j: int| 0 <= j < items.len() implies (#[trigger] items[j]).u64_value() is Some by {
            assert(items[j] is Number && items[j]->Number_0 is Unsigned);
        }
        lemma_ids_scan(items, id, 0);
        nums.to_multiset_ensures();
        ids.to_multiset_ensures();
        assert(nums.contains(id) <==> nums.to_multiset().count(id) > 0);
        assert(ids.contains(id) <==> ids.to_multiset().count(id) > 0);
        assert(nums.to_multiset() == ids.to_multiset());
        assert((exists|j: int| 0 <= j < items.len() && (#[trigger] items[j]).u64_value() == Some(id))
            <==> nums.contains(id)) by {
            if nums.contains(id) {
                let j = choose|j: int| 0 <= j < nums.len() && nums[j] == id;
                assert(items[j].u64_value() == Some(id));
            }
            if exists|j: int| 0 <= j < items.len() && (#[trigger] items[j]).u64_value() == Some(id) {
                let j = choose|j: int| 0 <= j < items.len() && (#[trigger] items[j]).u64_value() == Some(id);
                assert(nums[j] == id);
            }
        }
    }
}

/// Scanning the entries written for the texts `s` of `m` finds the first
/// text whose numbers hold `id`.
proof fn lemma_position_scan(
    entries: Seq<JsonValue>,
    m: Map<Seq<char>, Seq<u64>>,
    s: Seq<Seq<char>>,
    id: u64,
    k: int,
)
    requires
        0 <= k <= entries.len(),
        entries.len() == s.len(),
        forall|i: int| 0 <= i < entries.len() ==> ids_json(#[trigger] entries[i], m[s[i]]),
    ensures
        position_scan(entries, id, k) is Some,
        position_scan(entries, id, k).unwrap() matches Some(i) ==> {
            &&& k <= i < entries.len()
            &&& m[s[i]].contains(id)
            &&& forall|j: int| k <= j < i ==> !(#[trigger] m[s[j]]).contains(id)
        },
        position_scan(entries, id, k).unwrap() is None ==> forall|j: int|
            k <= j < entries.len() ==> !(#[trigger] m[s[j]]).contains(id),
    decreases entries.len() - k,
{
    if k < entries.len() {
        lemma_entry_scan(entries[k], m[s[k]], id);
        lemma_position_scan(entries, m, s, id, k + 1);
    }
}

/// The JSON arrays `jk` (texts) and `jv` (their numbers) written for `m`:
/// the position found for `id` is that of the first text, in text order,
/// whose numbers hold it.
proof fn lemma_lookup_pair(jk: JsonValue, jv: JsonValue, m: Map<Seq<char>, Seq<u64>>, id: u64)
    requires
        keys_json(jk, m),
        values_json(jv, m),
        m.dom().finite(),
    ensures
        labels_ok(jk.items().unwrap(), jv.items().unwrap()),
        position_scan(jv.items().unwrap(), id, 0) is Some,
        position_scan(jv.items().unwrap(), id, 0).unwrap() is None <==> !exists|k: Seq<char>|
            m.contains_key(k) && (#[trigger] m[k]).contains(id),
        position_scan(jv.items().unwrap(), id, 0).unwrap() matches Some(i) ==> {
            &&& jk.element(i) is Some
            &&& jk.element(i).unwrap().text() is Some
            &&& m.contains_key(jk.element(i).unwrap().text().unwrap())
            &&& m[jk.element(i).unwrap().text().unwrap()].contains(id)
            &&& forall|k: Seq<char>|
                m.contains_key(k) && (#[trigger] m[k]).contains(id) && k != jk.element(i).unwrap().text().unwrap()
                    ==> text_lt(jk.element(i).unwrap().text().unwrap(), k)
        },
{
    let s = sorted_texts_of(m.dom());
    lemma_sorted_texts_exist(m.dom());
    let keys = jk.items().unwrap();
    let vals = jv.items().unwrap();
    assert forall|i: int| 0 <= i < vals.len() implies ids_json(#[trigger] vals[i], m[s[i]]) by {}
    assert forall|i: int| 0 <= i < keys.len() && i < vals.len() implies (#[trigger] keys[i]).text() is Some
        && entry_ids_ok(vals[i]) by {
        lemma_entry_scan(vals[i], m[s[i]], id);
    }
    lemma_position_scan(vals, m, s, id, 0);
    assert forall|k: Seq<char>| m.contains_key(k) implies exists|j: int| 0 <= j < s.len() && s[j] == k by {
        assert(s.to_set().contains(k));
    }
    match position_scan(vals, id, 0).unwrap() {
        None => {
            if exists|k: Seq<char>| m.contains_key(k) && (#[trigger] m[k]).contains(id) {
                let k = choose|k: Seq<char>| m.contains_key(k) && (#[trigger] m[k]).contains(id);
                let j = choose|j: int| 0 <= j < s.len() && s[j] == k;
                assert(!m[s[j]].contains(id));
            }
        },
        Some(i) => {
            let t = s[i];
            assert(keys[i].text() == Some(t));
            assert(s.to_set().contains(t));
            assert forall|k: Seq<char>|
                m.contains_key(k) && (#[trigger] m[k]).contains(id) && k != t implies text_lt(t, k) by {
                let j = choose|j: int| 0 <= j < s.len() && s[j] == k;
                if j < i {
                    assert(!m[s[j]].contains(id));
                }
                assert(j != i);
            }
        },
    }
}

/// The members of a written body, found by key.
proof fn lemma_body_fields(body: JsonValue, labels: Map<Seq<char>, Seq<u64>>, sites: Map<Seq<char>, Seq<u64>>)
    requires
        body_json(body, labels, sites),
    ensures
        body.field(seq!['a']) == Some(body.members().unwrap()[0].1),
        body.field(seq!['b']) == Some(body.members().unwrap()[1].1),
        body.field(seq!['c']) == Some(body.members().unwrap()[2].1),
        body.field(seq!['d']) == Some(body.members().unwrap()[3].1),
{
    reveal_strlit("a");
    reveal_strlit("b");
    reveal_strlit("c");
    reveal_strlit("d");
    let ms = body.members().unwrap();
    assert(ms[0].0@ =~= seq!['a']);
    assert(ms[1].0@ =~= seq!['b']);
    assert(ms[2].0@ =~= seq!['c']);
    assert(ms[3].0@ =~= seq!['d']);
    assert(seq!['a'][0] == 'a' && seq!['b'][0] == 'b' && seq!['c'][0] == 'c' && seq!['d'][0] == 'd');
    assert(seq!['a'] != seq!['b'] && seq!['a'] != seq!['c'] && seq!['a'] != seq!['d']);
    assert(seq!['b'] != seq!['c'] && seq!['b'] != seq!['d'] && seq!['c'] != seq!['d']);
    let m1 = ms.drop_first();
    let m2 = m1.drop_first();
    let m3 = m2.drop_first();
    assert(m1[0] == ms[1] && m2[0] == ms[2] && m3[0] == ms[3]);
    assert(member_value(m3, seq!['d']) == Some(ms[3].1));
    assert(member_value(m2, seq!['c']) == Some(ms[2].1));
    assert(member_value(m2, seq!['d']) == member_value(m3, seq!['d']));
    assert(member_value(m1, seq!['b']) == Some(ms[1].1));
    assert(member_value(m1, seq!['c']) == member_value(m2, seq!['c']));
    assert(member_value(m1, seq!['d']) == member_value(m2, seq!['d']));
    assert(member_value(ms, seq!['b']) == member_value(m1, seq!['b']));
    assert(member_value(ms, seq!['c']) == member_value(m1, seq!['c']));
    assert(member_value(ms, seq!['d']) == member_value(m1, seq!['d']));
}

/// Reading back a stored body: in a body that the indexer wrote for the
/// labels `labels` (each text with the numbers of its languages), looking
/// up a language number never fails; it finds no label exactly when no
/// label holds the number, and otherwise the first label, in text order,
/// that holds it. The whole body can be decoded as well.
pub proof fn lemma_stored_label_read_back(
    body: JsonValue,
    labels: Map<Seq<char>, Seq<u64>>,
    sites: Map<Seq<char>, Seq<u64>>,
    id: u64,
)
    requires
        body_json(body, labels, sites),
        labels.dom().finite(),
        sites.dom().finite(),
    ensures
        body_ok(body),
        lookup_ok(body, id, seq!['a'], seq!['c']),
        lookup(body, id, seq!['a'], seq!['c']) is None <==> !exists|k: Seq<char>|
            labels.contains_key(k) && (#[trigger] labels[k]).contains(id),
        lookup(body, id, seq!['a'], seq!['c']) matches Some(t) ==> {
            &&& labels.contains_key(t)
            &&& labels[t].contains(id)
            &&& forall|k: Seq<char>|
                labels.contains_key(k) && (#[trigger] labels[k]).contains(id) && k != t ==> text_lt(t, k)
        },
{
    lemma_body_fields(body, labels, sites);
    let ms = body.members().unwrap();
    lemma_lookup_pair(ms[0].1, ms[2].1, labels, id);
    lemma_lookup_pair(ms[1].1, ms[3].1, sites, id);
}

/// Reading back a stored body: in a body that the indexer wrote for the
/// pages `sites` (each page title with the numbers of its wiki sites),
/// looking up a site number never fails; it finds no page exactly when no
/// page holds the number, and otherwise the first page, in text order, that
/// holds it.
pub proof fn lemma_stored_sitelink_read_back(
    body: JsonValue,
    labels: Map<Seq<char>, Seq<u64>>,
    sites: Map<Seq<char>, Seq<u64>>,
    id: u64,
)
    requires
        body_json(body, labels, sites),
        sites.dom().finite(),
    ensures
        lookup_ok(body, id, seq!['b'], seq!['d']),
        lookup(body, id, seq!['b'], seq!['d']) is None <==> !exists|k: Seq<char>|
            sites.contains_key(k) && (#[trigger] sites[k]).contains(id),
        lookup(body, id, seq!['b'], seq!['d']) matches Some(t) ==> {
            &&& sites.contains_key(t)
            &&& sites[t].contains(id)
            &&& forall|k: Seq<char>|
                sites.contains_key(k) && (#[trigger] sites[k]).contains(id) && k != t ==> text_lt(t, k)
        },
{
    lemma_body_fields(body, labels, sites);
    let ms = body.members().unwrap();
    lemma_lookup_pair(ms[1].1, ms[3].1, sites, id);
}

/// The label `label` of `m` holds a number that `dict` turns into the text `t`.
pub open spec fn names_text(m: Map<Seq<char>, Seq<u64>>, dict: StringToId, label: Seq<char>, t: Seq<char>) -> bool {
    m.contains_key(label) && exists|k: u64| #[trigger] m[label].contains(k) && dict.text_of(k) == t
}

proof fn lemma_insert_ids(m0: Map<Seq<char>, Seq<char>>, ids: Seq<u64>, dict: StringToId, label: Seq<char>)
    ensures
        forall|t: Seq<char>| #[trigger] insert_ids(m0, ids, dict, label).contains_key(t) <==> (m0.contains_key(t)
            || exists|k: u64| #[trigger] ids.contains(k) && dict.text_of(k) == t),
        forall|t: Seq<char>| #[trigger] insert_ids(m0, ids, dict, label).contains_key(t) ==> insert_ids(
            m0,
            ids,
            dict,
            label,
        )[t] == if exists|k: u64| #[trigger] ids.contains(k) && dict.text_of(k) == t {
            label
        } else {
            m0[t]
        },
    decreases ids.len(),
{
    if ids.len() == 0 {
        assert forall|k: u64| !(#[trigger] ids.contains(k)) by {}
    } else {
        let rest = ids.drop_last();
        lemma_insert_ids(m0, rest, dict, label);
        let last = ids.last();
        assert(ids[ids.len() - 1] == last);
        assert(ids.contains(last));
        assert forall|t: Seq<char>|
            #![trigger insert_ids(m0, ids, dict, label).contains_key(t)]
            t != dict.text_of(last) implies ((exists|k: u64|
            #[trigger] ids.contains(k) && dict.text_of(k) == t) <==> (exists|k: u64|
            #[trigger] rest.contains(k) && dict.text_of(k) == t)) by {
            if exists|k: u64| #[trigger] ids.contains(k) && dict.text_of(k) == t {
                let k = choose|k: u64| #[trigger] ids.contains(k) && dict.text_of(k) == t;
                let i = choose|i: int| 0 <= i < ids.len() && ids[i] == k;
                assert(k != last);
                assert(i != ids.len() - 1);
                assert(rest[i] == k);
                assert(rest.contains(k));
            }
            if exists|k: u64| #[trigger] rest.contains(k) && dict.text_of(k) == t {
                let k = choose|k: u64| #[trigger] rest.contains(k) && dict.text_of(k) == t;
                let i = choose|i: int| 0 <= i < rest.len() && rest[i] == k;
                assert(ids[i] == k);
                assert(ids.contains(k));
            }
        }
        let cur = insert_ids(m0, ids, dict, label);
        let before = insert_ids(m0, rest, dict, label);
        assert(cur == before.insert(dict.text_of(last), label));
        assert forall|t: Seq<char>| #[trigger] cur.contains_key(t) <==> (m0.contains_key(t) || exists|k: u64|
            #[trigger] ids.contains(k) && dict.text_of(k) == t) by {
            if t != dict.text_of(last) {
                assert(cur.contains_key(t) == before.contains_key(t));
            }
        }
        assert forall|t: Seq<char>| #[trigger] cur.contains_key(t) implies cur[t] == if exists|k: u64|
            #[trigger] ids.contains(k) && dict.text_of(k) == t {
            label
        } else {
            m0[t]
        } by {
            if t != dict.text_of(last) {
                assert(before.contains_key(t));
                assert(cur[t] == before[t]);
            }
        }
    }
}

proof fn lemma_entry_ids(e: JsonValue, ids: Seq<u64>)
    requires
        ids_json(e, ids),
    ensures
        forall|k: u64| #[trigger] entry_ids(e).contains(k) <==> ids.contains(k),
{
    if ids.len() == 1 {
        assert(entry_ids(e) =~= ids);
    } else {
        let items = e.items().unwrap();
        let nums = items.map_values(|x: JsonValue| x.u64_value().unwrap());
        assert(entry_ids(e) == nums);
        nums.to_multiset_ensures();
        ids.to_multiset_ensures();
        assert forall|k: u64| #[trigger] entry_ids(e).contains(k) <==> ids.contains(k) by {
            assert(nums.contains(k) <==> nums.to_multiset().count(k) > 0);
            assert(ids.contains(k) <==> ids.to_multiset().count(k) > 0);
        }
    }
}

proof fn lemma_label_map_upto(
    keys: Seq<JsonValue>,
    vals: Seq<JsonValue>,
    m: Map<Seq<char>, Seq<u64>>,
    s: Seq<Seq<char>>,
    dict: StringToId,
    n: nat,
)
    requires
        keys.len() == s.len(),
        vals.len() == s.len(),
        n <= s.len(),
        forall|i: int| 0 <= i < s.len() ==> (#[trigger] keys[i]).text() == Some(s[i]),
        forall|i: int| 0 <= i < s.len() ==> ids_json(#[trigger] vals[i], m[s[i]]),
        forall|i: int| 0 <= i < s.len() ==> m.contains_key(#[trigger] s[i]),
    ensures
        forall|t: Seq<char>| #[trigger] label_map_upto(keys, vals, dict, n).contains_key(t) <==> exists|i: int|
            0 <= i < n && names_text(m, dict, #[trigger] s[i], t),
        forall|t: Seq<char>| #[trigger] label_map_upto(keys, vals, dict, n).contains_key(t) ==> exists|j: int|
            0 <= j < n && names_text(m, dict, #[trigger] s[j], t) && label_map_upto(keys, vals, dict, n)[t] == s[j]
                && forall|i: int| j < i < n ==> !names_text(m, dict, #[trigger] s[i], t),
    decreases n,
{
    if n > 0 {
        let p = (n - 1) as nat;
        lemma_label_map_upto(keys, vals, m, s, dict, p);
        let prev = label_map_upto(keys, vals, dict, p);
        let l = s[p as int];
        let ids = entry_ids(vals[p as int]);
        assert(keys[p as int].text() == Some(l));
        assert(label_map_upto(keys, vals, dict, n) == insert_ids(prev, ids, dict, l));
        lemma_insert_ids(prev, ids, dict, l);
        lemma_entry_ids(vals[p as int], m[l]);
        assert forall|t: Seq<char>| (exists|k: u64| #[trigger] ids.contains(k) && dict.text_of(k) == t)
            <==> names_text(m, dict, l, t) by {
            if exists|k: u64| #[trigger] ids.contains(k) && dict.text_of(k) == t {
                let k = choose|k: u64| #[trigger] ids.contains(k) && dict.text_of(k) == t;
                assert(m[l].contains(k));
            }
            if names_text(m, dict, l, t) {
                let k = choose|k: u64| #[trigger] m[l].contains(k) && dict.text_of(k) == t;
                assert(ids.contains(k));
            }
        }
        let cur = label_map_upto(keys, vals, dict, n);
        assert forall|t: Seq<char>| #[trigger] cur.contains_key(t) <==> exists|i: int|
            0 <= i < n && names_text(m, dict, #[trigger] s[i], t) by {
            if exists|i: int| 0 <= i < n && names_text(m, dict, #[trigger] s[i], t) {
                let i = choose|i: int| 0 <= i < n && names_text(m, dict, #[trigger] s[i], t);
                if i < p {
                    assert(prev.contains_key(t));
                }
            }
            if prev.contains_key(t) {
                let i = choose|i: int| 0 <= i < p && names_text(m, dict, #[trigger] s[i], t);
                assert(0 <= i < n && names_text(m, dict, s[i], t));
            }
            if names_text(m, dict, l, t) {
                assert(names_text(m, dict, s[p as int], t));
            }
        }
        assert forall|t: Seq<char>| #[trigger] cur.contains_key(t) implies exists|j: int|
            0 <= j < n && names_text(m, dict, #[trigger] s[j], t) && cur[t] == s[j] && forall|i: int|
                j < i < n ==> !names_text(m, dict, #[trigger] s[i], t) by {
            if names_text(m, dict, l, t) {
                assert(cur[t] == l);
                assert(names_text(m, dict, s[p as int], t));
            } else {
                assert(prev.contains_key(t));
                let j = choose|j: int|
                    0 <= j < p && names_text(m, dict, #[trigger] s[j], t) && prev[t] == s[j] && forall|i: int|
                        j < i < p ==> !names_text(m, dict, #[trigger] s[i], t);
                assert(cur[t] == s[j]);
                assert forall|i: int| j < i < n implies !names_text(m, dict, #[trigger] s[i], t) by {
                    if i == p {
                        assert(s[i] == l);
                    }
                }
            }
        }
    }
}

/// Decoding the JSON arrays `jk` (texts) and `jv` (their numbers) written
/// for `m`: each number's text maps to a label that holds the number, the
/// last such label in text order.
proof fn lemma_decode_pair(jk: JsonValue, jv: JsonValue, m: Map<Seq<char>, Seq<u64>>, dict: StringToId)
    requires
        keys_json(jk, m),
        values_json(jv, m),
        m.dom().finite(),
    ensures
        forall|t: Seq<char>| #[trigger] label_map(jk.items().unwrap(), jv.items().unwrap(), dict).contains_key(t)
            <==> exists|l: Seq<char>| #[trigger] names_text(m, dict, l, t),
        forall|t: Seq<char>| #[trigger] label_map(jk.items().unwrap(), jv.items().unwrap(), dict).contains_key(t)
            ==> {
            let found = label_map(jk.items().unwrap(), jv.items().unwrap(), dict)[t];
            &&& names_text(m, dict, found, t)
            &&& forall|l: Seq<char>| #[trigger] names_text(m, dict, l, t) && l != found ==> text_lt(l, found)
        },
{
    let s = sorted_texts_of(m.dom());
    lemma_sorted_texts_exist(m.dom());
    let keys = jk.items().unwrap();
    let vals = jv.items().unwrap();
    assert forall|i: int| 0 <= i < s.len() implies m.contains_key(#[trigger] s[i]) by {
        assert(s.to_set().contains(s[i]));
    }
    assert forall|i: int| 0 <= i < s.len() implies (#[trigger] keys[i]).text() == Some(s[i]) by {}
    assert forall|i: int| 0 <= i < s.len() implies ids_json(#[trigger] vals[i], m[s[i]]) by {}
    lemma_label_map_upto(keys, vals, m, s, dict, s.len());
    assert(label_map(keys, vals, dict) == label_map_upto(keys, vals, dict, s.len()));
    let lm = label_map(keys, vals, dict);
    assert forall|t: Seq<char>| #[trigger] lm.contains_key(t) <==> exists|l: Seq<char>|
        #[trigger] names_text(m, dict, l, t) by {
        if exists|l: Seq<char>| #[trigger] names_text(m, dict, l, t) {
            let l = choose|l: Seq<char>| #[trigger] names_text(m, dict, l, t);
            assert(s.to_set().contains(l));
            let i = choose|i: int| 0 <= i < s.len() && s[i] == l;
            assert(names_text(m, dict, s[i], t));
        }
        if lm.contains_key(t) {
            let i = choose|i: int| 0 <= i < s.len() && names_text(m, dict, #[trigger] s[i], t);
            assert(names_text(m, dict, s[i], t));
        }
    }
    assert forall|t: Seq<char>| #[trigger] lm.contains_key(t) implies {
        let found = lm[t];
        &&& names_text(m, dict, found, t)
        &&& forall|l: Seq<char>| #[trigger] names_text(m, dict, l, t) && l != found ==> text_lt(l, found)
    } by {
        let j = choose|j: int|
            0 <= j < s.len() && names_text(m, dict, #[trigger] s[j], t) && lm[t] == s[j] && forall|i: int|
                j < i < s.len() ==> !names_text(m, dict, #[trigger] s[i], t);
        assert forall|l: Seq<char>| #[trigger] names_text(m, dict, l, t) && l != lm[t] implies text_lt(l, lm[t]) by {
            assert(s.to_set().contains(l));
            let i = choose|i: int| 0 <= i < s.len() && s[i] == l;
            if i > j {
                assert(!names_text(m, dict, s[i], t));
            }
            assert(i != j);
        }
    }
}

/// Decoding a stored body: in a body that the indexer wrote for the labels
/// `labels` and the pages `sites`, the whole entity can be decoded; its
/// labels, by language, map exactly the texts of the languages some label
/// holds, each to a label that holds it (the last one, in text order, when
/// several do), and likewise its pages by wiki site.
pub proof fn lemma_stored_entity_read_back(
    body: JsonValue,
    labels: Map<Seq<char>, Seq<u64>>,
    sites: Map<Seq<char>, Seq<u64>>,
    languages: StringToId,
    wikisites: StringToId,
)
    requires
        body_json(body, labels, sites),
        labels.dom().finite(),
        sites.dom().finite(),
    ensures
        body_ok(body),
        ({
            let by_language = label_map(
                body.field(seq!['a']).unwrap().items().unwrap(),
                body.field(seq!['c']).unwrap().items().unwrap(),
                languages,
            );
            &&& forall|t: Seq<char>| #[trigger] by_language.contains_key(t) <==> exists|l: Seq<char>|
                #[trigger] names_text(labels, languages, l, t)
            &&& forall|t: Seq<char>| #[trigger] by_language.contains_key(t) ==> {
                &&& names_text(labels, languages, by_language[t], t)
                &&& forall|l: Seq<char>|
                    #[trigger] names_text(labels, languages, l, t) && l != by_language[t] ==> text_lt(l, by_language[t])
            }
        }),
        ({
            let by_site = label_map(
                body.field(seq!['b']).unwrap().items().unwrap(),
                body.field(seq!['d']).unwrap().items().unwrap(),
                wikisites,
            );
            &&& forall|t: Seq<char>| #[trigger] by_site.contains_key(t) <==> exists|l: Seq<char>|
                #[trigger] names_text(sites, wikisites, l, t)
            &&& forall|t: Seq<char>| #[trigger] by_site.contains_key(t) ==> {
                &&& names_text(sites, wikisites, by_site[t], t)
                &&& forall|l: Seq<char>|
                    #[trigger] names_text(sites, wikisites, l, t) && l != by_site[t] ==> text_lt(l, by_site[t])
            }
        }),
{
    lemma_stored_label_read_back(body, labels, sites, 0);
    lemma_body_fields(body, labels, sites);
    let ms = body.members().unwrap();
    lemma_decode_pair(ms[0].1, ms[2].1, labels, languages);
    lemma_decode_pair(ms[1].1, ms[3].1, sites, wikisites);
}

/// The label `l` of `m` holds the number `n`.
pub open spec fn holds(m: Map<Seq<char>, Seq<u64>>, l: Seq<char>, n: u64) -> bool {
    m.contains_key(l) && m[l].contains(n)
}

/// What the fold of the titles gives: the dictionary only grows, every kept
/// key is numbered, and a label holds a number exactly when a kept title
/// with that label has a key with that number.
proof fn lemma_fold_holders(
    pairs: Seq<(Seq<char>, Seq<char>)>,
    keep: Set<Seq<char>>,
    ids0: Map<Seq<char>, u64>,
    next0: u64,
)
    ensures
        ({
            let (m, ids, next) = fold_labels(pairs, keep, ids0, next0);
            &&& forall|k: Seq<char>| #[trigger] ids0.contains_key(k) ==> ids.contains_key(k) && ids[k] == ids0[k]
            &&& forall|j: int| 0 <= j < pairs.len() && keep.contains(#[trigger] pairs[j].0) ==> ids.contains_key(pairs[j].0)
            &&& forall|l: Seq<char>, n: u64| #[trigger] holds(m, l, n) <==> exists|j: int|
                0 <= j < pairs.len() && keep.contains(#[trigger] pairs[j].0) && pairs[j].1 == l && ids[pairs[j].0] == n
        }),
    decreases pairs.len(),
{
    if pairs.len() == 0 {
        let (m, ids, next) = fold_labels(pairs, keep, ids0, next0);
        assert forall|l: Seq<char>, n: u64| !#[trigger] holds(m, l, n) by {}
    } else {
        let p1 = pairs.drop_last();
        lemma_fold_holders(p1, keep, ids0, next0);
        let (m1, ids1, next1) = fold_labels(p1, keep, ids0, next0);
        let (m, ids, next) = fold_labels(pairs, keep, ids0, next0);
        let last = pairs.last();
        let z = pairs.len() - 1;
        assert(pairs[z] == last);
        assert forall|j: int| 0 <= j < z implies #[trigger] p1[j] == pairs[j] by {}
        if keep.contains(last.0) {
            let (n0, ids2, next2) = dict_get(ids1, next1, last.0);
            assert(m == insert_label(m1, last.1, n0) && ids == ids2);
            assert(ids.contains_key(last.0) && ids[last.0] == n0);
            assert forall|k: Seq<char>| #[trigger] ids1.contains_key(k) implies ids.contains_key(k) && ids[k] == ids1[k] by {}
            assert forall|j: int| 0 <= j < pairs.len() && keep.contains(#[trigger] pairs[j].0) implies ids.contains_key(pairs[j].0) by {
                if j < z {
                    assert(p1[j] == pairs[j]);
                    assert(keep.contains(p1[j].0));
                }
            }
            assert forall|l: Seq<char>, n: u64| #[trigger] holds(m, l, n) <==> exists|j: int|
                0 <= j < pairs.len() && keep.contains(#[trigger] pairs[j].0) && pairs[j].1 == l && ids[pairs[j].0] == n by {
                assert(holds(m, l, n) <==> ((l == last.1 && n == n0) || holds(m1, l, n))) by {
                    if m1.contains_key(last.1) {
                        assert(m[last.1] == m1[last.1].push(n0));
                        assert(m1[last.1].push(n0).contains(n) <==> (m1[last.1].contains(n) || n == n0)) by {
                            let q = m1[last.1].push(n0);
                            if q.contains(n) {
                                let i = choose|i: int| 0 <= i < q.len() && q[i] == n;
                                if i < q.len() - 1 {
                                    assert(m1[last.1][i] == n);
                                }
                            }
                            if m1[last.1].contains(n) {
                                let i = choose|i: int| 0 <= i < m1[last.1].len() && m1[last.1][i] == n;
                                assert(q[i] == n);
                            }
                            assert(q[q.len() - 1] == n0);
                        }
                    } else {
                        assert(m[last.1] == seq![n0]);
                        assert(seq![n0].contains(n) <==> n == n0) by {
                            assert(seq![n0][0] == n0);
                        }
                    }
                }
                if holds(m, l, n) {
                    if l == last.1 && n == n0 {
                        assert(keep.contains(pairs[z].0) && pairs[z].1 == l && ids[pairs[z].0] == n);
                    } else {
                        let j = choose|j: int|
                            0 <= j < p1.len() && keep.contains(#[trigger] p1[j].0) && p1[j].1 == l && ids1[p1[j].0] == n;
                        assert(p1[j] == pairs[j]);
                        assert(keep.contains(pairs[j].0) && ids[pairs[j].0] == n);
                    }
                }
                if exists|j: int|
                    0 <= j < pairs.len() && keep.contains(#[trigger] pairs[j].0) && pairs[j].1 == l && ids[pairs[j].0] == n {
                    let j = choose|j: int|
                        0 <= j < pairs.len() && keep.contains(#[trigger] pairs[j].0) && pairs[j].1 == l && ids[pairs[j].0] == n;
                    if j < z {
                        assert(p1[j] == pairs[j]);
                        assert(keep.contains(p1[j].0));
                        assert(ids1.contains_key(p1[j].0));
                        assert(ids1[p1[j].0] == n);
                        assert(holds(m1, l, n));
                    }
                }
            }
        } else {
            assert(m == m1 && ids == ids1);
            assert forall|j: int| 0 <= j < pairs.len() && keep.contains(#[trigger] pairs[j].0) implies ids.contains_key(pairs[j].0) by {
                if j < z {
                    assert(p1[j] == pairs[j]);
                    assert(keep.contains(p1[j].0));
                }
            }
            assert forall|l: Seq<char>, n: u64| #[trigger] holds(m, l, n) <==> exists|j: int|
                0 <= j < pairs.len() && keep.contains(#[trigger] pairs[j].0) && pairs[j].1 == l && ids[pairs[j].0] == n by {
                if holds(m, l, n) {
                    let j = choose|j: int|
                        0 <= j < p1.len() && keep.contains(#[trigger] p1[j].0) && p1[j].1 == l && ids1[p1[j].0] == n;
                    assert(p1[j] == pairs[j]);
                    assert(keep.contains(pairs[j].0));
                }
                if exists|j: int|
                    0 <= j < pairs.len() && keep.contains(#[trigger] pairs[j].0) && pairs[j].1 == l && ids[pairs[j].0] == n {
                    let j = choose|j: int|
                        0 <= j < pairs.len() && keep.contains(#[trigger] pairs[j].0) && pairs[j].1 == l && ids[pairs[j].0] == n;
                    assert(j != z);
                    assert(p1[j] == pairs[j]);
                    assert(keep.contains(p1[j].0));
                }
            }
        }
    }
}

/// Writing a document, then reading one of its labels back. The indexer
/// wrote the document whose titles (language, text) are `titles`, keeping
/// the languages of `keep` and numbering them with its dictionary, which went
/// from `before` to `after` (as `prepare_document` states); the API loaded
/// the entries of `after` (as `StringToId::entries` gives them) as its
/// dictionary of languages. The indexer's dictionary numbers every language
/// it keeps: it starts as `StringToId::from_list` of the language list whose
/// positions `stats_names_of` gives, and `prepare_document` only adds to it.
/// Then, for a language that the indexer keeps and that names at most one
/// title, looking its label up in the stored body never fails; it finds that
/// title's text, or nothing when no title is in that language.
/// `get_label_from_document` gives this lookup.
pub proof fn lemma_written_label_read_back(
    titles: Seq<(Seq<char>, Seq<char>)>,
    keep: Set<Seq<char>>,
    before: Numbering,
    after: Numbering,
    body: JsonValue,
    sites: Map<Seq<char>, Seq<u64>>,
    entries: Seq<(String, u64)>,
    storage: TantivyStorage,
    lang: Seq<char>,
)
    requires
        ({
            let (labels, ids, next) = fold_labels(titles, keep, before.ids(), before.spec_next_id());
            &&& after.wf()
            &&& after.ids() == ids
            &&& body_json(body, labels, sites)
            &&& labels.dom().finite()
            &&& sites.dom().finite()
        }),
        entries.len() == after.order().len(),
        forall|i: int| 0 <= i < entries.len() ==> #[trigger] entries[i].0@ == after.order()[i] && entries[i].1 == i + 1,
        storage.languages().ids() == id_map(entries),
        forall|k: Seq<char>| #[trigger] keep.contains(k) ==> before.ids().contains_key(k),
        keep.contains(lang),
        forall|i: int, j: int|
            0 <= i < titles.len() && 0 <= j < titles.len() && titles[i].0 == lang && titles[j].0 == lang ==> i == j,
    ensures
        storage.languages().ids().contains_key(lang),
        lookup_ok(body, storage.languages().ids()[lang], seq!['a'], seq!['c']),
        forall|i: int|
            0 <= i < titles.len() && #[trigger] titles[i].0 == lang ==> lookup(
                body,
                storage.languages().ids()[lang],
                seq!['a'],
                seq!['c'],
            ) == Some(titles[i].1),
        (forall|i: int| 0 <= i < titles.len() ==> #[trigger] titles[i].0 != lang) ==> lookup(
            body,
            storage.languages().ids()[lang],
            seq!['a'],
            seq!['c'],
        ) is None,
{
    let (labels, ids, next) = fold_labels(titles, keep, before.ids(), before.spec_next_id());
    lemma_fold_holders(titles, keep, before.ids(), before.spec_next_id());
    assert(before.ids().contains_key(lang));
    assert(after.ids().contains_key(lang));
    lemma_saved_dictionary_reloads(after, entries, Map::empty());
    let n = after.ids()[lang];
    assert(storage.languages().ids()[lang] == n);
    lemma_stored_label_read_back(body, labels, sites, n);
    lemma_fold_holders(titles, keep, before.ids(), before.spec_next_id());
    lemma_ids_distinct(after);
    // a label holds `n` only for a title in `lang`
    assert forall|l: Seq<char>| #[trigger] labels.contains_key(l) && labels[l].contains(n) implies exists|j: int|
        0 <= j < titles.len() && titles[j].0 == lang && titles[j].1 == l by {
        assert(holds(labels, l, n));
        let j = choose|j: int|
            0 <= j < titles.len() && keep.contains(#[trigger] titles[j].0) && titles[j].1 == l && ids[titles[j].0] == n;
        assert(ids.contains_key(titles[j].0));
        if titles[j].0 != lang {
            assert(after.ids()[titles[j].0] != after.ids()[lang]);
        }
    }
    assert forall|i: int|
        0 <= i < titles.len() && #[trigger] titles[i].0 == lang implies lookup(body, n, seq!['a'], seq!['c'])
        == Some(titles[i].1) by {
        assert(keep.contains(titles[i].0));
        assert(holds(labels, titles[i].1, n));
        assert(labels.contains_key(titles[i].1) && labels[titles[i].1].contains(n));
        let t = lookup(body, n, seq!['a'], seq!['c']).unwrap();
        assert(labels.contains_key(t) && labels[t].contains(n));
        let j = choose|j: int| 0 <= j < titles.len() && titles[j].0 == lang && titles[j].1 == t;
        assert(j == i);
    }
    if forall|i: int| 0 <= i < titles.len() ==> #[trigger] titles[i].0 != lang {
        if lookup(body, n, seq!['a'], seq!['c']) is Some {
            let t = lookup(body, n, seq!['a'], seq!['c']).unwrap();
            assert(labels.contains_key(t) && labels[t].contains(n));
            let j = choose|j: int| 0 <= j < titles.len() && titles[j].0 == lang && titles[j].1 == t;
            assert(titles[j].0 != lang);
        }
    }
}

} // verus!
