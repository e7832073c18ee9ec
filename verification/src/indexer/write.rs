//! What the indexer writes of each document: its searchable titles, its
//! facets, and its stored body, where labels are grouped by text and their
//! languages (or wiki sites) are kept as numbers.
use vstd::prelude::*;
use crate::json::{JsonValue, JsonNumber};
use crate::text::{text_order, TextOrder, text_lt, lemma_text_lt_total, lemma_text_lt_transitive};
use crate::sorting::{increasing_texts, sorted_texts_of, lemma_sorted_texts_of, nondecreasing, sort_u64};
use crate::indexer::string_to_id::StringToId;
use crate::indexer::documents::{WDDocument, pair_texts};
use crate::indexer::instance_of::{InstanceOfMapping, InstanceOfType};
use crate::text_map::TextMap;
use crate::text::texts;

verus! {

/// How much of a text field the index records.
#[derive(Debug, Clone, Copy, PartialEq, Eq, Structural)]
pub enum IndexRecordOption {
    /// Only which documents hold a term.
    Basic,
    /// Also how often.
    WithFreqs,
    /// Also where.
    WithFreqsAndPositions,
}

/// How a text field is indexed.
#[derive(Debug)]
pub struct TextFieldIndexing {
    pub tokenizer: String,
    pub fieldnorms: bool,
    pub index_option: IndexRecordOption,
}

/// The settings of a text field of the index.
#[derive(Debug)]
pub struct TextOptions {
    pub stored: bool,
    pub indexing: Option<TextFieldIndexing>,
}

/// The settings of the stored body of an entity: stored, indexed with the
/// tokenizer `tokenizer_name`, without field norms, recording only which
/// documents hold a term.
pub fn get_text_no_store(tokenizer_name: &str) -> (r: TextOptions)
    ensures
        r.stored,
        r.indexing matches Some(i) && i.tokenizer@ == tokenizer_name@ && !i.fieldnorms && i.index_option
            == IndexRecordOption::Basic,
{
    TextOptions {
        stored: true,
        indexing: Some(
            TextFieldIndexing {
                tokenizer: tokenizer_name.to_string(),
                fieldnorms: false,
                index_option: IndexRecordOption::Basic,
            },
        ),
    }
}

/// The number a dictionary (`ids`, last number `next`) gives `key`, and the
/// dictionary after: a new text gets the next number.
pub open spec fn dict_get(ids: Map<Seq<char>, u64>, next: u64, key: Seq<char>) -> (u64, Map<Seq<char>, u64>, u64) {
    if ids.contains_key(key) {
        (ids[key], ids, next)
    } else {
        ((next + 1) as u64, ids.insert(key, (next + 1) as u64), (next + 1) as u64)
    }
}

/// `m` with number `n` added to the numbers of `label`.
pub open spec fn insert_label(m: Map<Seq<char>, Seq<u64>>, label: Seq<char>, n: u64) -> Map<Seq<char>, Seq<u64>> {
    m.insert(
        label,
        if m.contains_key(label) {
            m[label].push(n)
        } else {
            seq![n]
        },
    )
}

/// The numbers of a label as the stored body keeps them: one number alone,
/// or an array of the numbers in increasing order.
pub open spec fn ids_json(j: JsonValue, ids: Seq<u64>) -> bool {
    if ids.len() == 1 {
        j == JsonValue::Number(JsonNumber::Unsigned(ids[0]))
    } else {
        &&& j.items() is Some
        &&& forall|k: int| 0 <= k < j.items().unwrap().len() ==> (#[trigger] j.items().unwrap()[k]) is Number
            && j.items().unwrap()[k]->Number_0 is Unsigned
        &&& {
            let nums = j.items().unwrap().map_values(|x: JsonValue| x.u64_value().unwrap());
            nondecreasing(nums) && nums.to_multiset() == ids.to_multiset()
        }
    }
}

/// Labels grouped by text, each with the numbers of its languages (or wiki
/// sites); the texts are kept in increasing order.
pub struct WeirdStruct {
    entries: Vec<(String, Vec<u64>)>,
}

impl WeirdStruct {
    /// The texts, in the order kept.
    pub closed spec fn label_seq(&self) -> Seq<Seq<char>> {
        self.entries@.map_values(|e: (String, Vec<u64>)| e.0@)
    }

    /// The numbers of each text.
    pub closed spec fn labels(&self) -> Map<Seq<char>, Seq<u64>> {
        Map::new(
            |k: Seq<char>| self.label_seq().contains(k),
            |k: Seq<char>| self.entries@[self.label_seq().index_of(k)].1@,
        )
    }

    /// The texts are in strictly increasing order, and each has a number.
    pub closed spec fn wf(&self) -> bool {
        &&& increasing_texts(self.label_seq())
        &&& forall|i: int| 0 <= i < self.entries@.len() ==> (#[trigger] self.entries@[i]).1@.len() > 0
    }

    proof fn lemma_entry(&self, i: int)
        requires
            self.wf(),
            0 <= i < self.entries@.len(),
        ensures
            self.labels().contains_key(self.entries@[i].0@),
            self.labels()[self.entries@[i].0@] == self.entries@[i].1@,
            self.label_seq()[i] == self.entries@[i].0@,
    {
        let s = self.label_seq();
        assert(s[i] == self.entries@[i].0@);
        assert(s.contains(s[i]));
        let j = s.index_of(s[i]);
        if j != i {
            if j < i {
                lemma_text_lt_total(s[j], s[i]);
            } else {
                lemma_text_lt_total(s[i], s[j]);
            }
        }
    }

    /// The texts in increasing order: the order in which an ordered map yields them.
    proof fn lemma_label_seq(&self)
        requires
            self.wf(),
        ensures
            self.label_seq() == sorted_texts_of(self.labels().dom()),
            forall|i: int| 0 <= i < self.label_seq().len() ==> self.labels()[#[trigger] self.label_seq()[i]] == self.entries@[i].1@,
    {
        assert(self.labels().dom() =~= self.label_seq().to_set());
        lemma_sorted_texts_of(self.label_seq());
        assert forall|i: int| 0 <= i < self.label_seq().len() implies self.labels()[#[trigger] self.label_seq()[i]]
            == self.entries@[i].1@ by {
            self.lemma_entry(i);
        }
    }

    /// The labels are finitely many, one per text kept.
    pub proof fn lemma_labels_finite(&self)
        requires
            self.wf(),
        ensures
            self.labels().dom().finite(),
            sorted_texts_of(self.labels().dom()).len() == self.labels().dom().len(),
    {
        broadcast use vstd::set::group_set_axioms;
        self.lemma_label_seq();
        let s = self.label_seq();
        assert(self.labels().dom() =~= s.to_set());
        assert(s.no_duplicates()) by {
            assert forall|i: int, j: int| 0 <= i < s.len() && 0 <= j < s.len() && i != j implies s[i] != s[j] by {
                crate::text::lemma_bytes_lt_irreflexive(vstd::utf8::encode_utf8(s[i]));
                if i < j {
                    assert(text_lt(s[i], s[j]));
                } else {
                    assert(text_lt(s[j], s[i]));
                }
            }
        }
        s.unique_seq_to_set();
        vstd::seq_lib::seq_to_set_is_finite(s);
    }

    /// No labels.
    pub fn new() -> (r: WeirdStruct)
        ensures
            r.wf(),
            r.labels() == Map::<Seq<char>, Seq<u64>>::empty(),
    {
        let r = WeirdStruct { entries: Vec::new() };
        assert(r.labels() =~= Map::<Seq<char>, Seq<u64>>::empty());
        r
    }

    /// Adds the number of `id` (given by `string_to_id`) to the label `label`.
    pub fn insert(&mut self, id: &str, label: &str, string_to_id: &mut StringToId)
        requires
            old(self).wf(),
            old(string_to_id).wf(),
            old(string_to_id).ids().contains_key(id@) || old(string_to_id).spec_next_id() < u64::MAX,
        ensures
            final(self).wf(),
            final(string_to_id).wf(),
            ({
                let (n, ids, next) = dict_get(old(string_to_id).ids(), old(string_to_id).spec_next_id(), id@);
                &&& final(string_to_id).ids() == ids
                &&& final(string_to_id).spec_next_id() == next
                &&& final(self).labels() == insert_label(old(self).labels(), label@, n)
            }),
    {
        let n = string_to_id.get(id.to_string());
        let ghost old_entries = self.entries@;
        let ghost s = self.label_seq();
        let mut p: usize = 0;
        let mut found = false;
        let mut stop = false;
        while p < self.entries.len() && !stop
            invariant
                self.entries@ == old_entries,
                s == self.label_seq(),
                increasing_texts(s),
                p <= old_entries.len(),
                forall|k: int| 0 <= k < p ==> text_lt(#[trigger] s[k], label@),
                found ==> stop,
                stop ==> p < old_entries.len(),
                found ==> s[p as int] == label@,
                stop && !found ==> text_lt(label@, s[p as int]),
            decreases old_entries.len() - p + if stop { 0int } else { 1int },
        {
            let o = text_order(self.entries[p].0.as_str(), label);
            assert(s[p as int] == old_entries[p as int].0@);
            if o == TextOrder::Equal {
                found = true;
                stop = true;
            } else if o == TextOrder::Greater {
                stop = true;
            } else {
                p = p + 1;
            }
        }
        if found {
            let mut entry = (String::new(), Vec::new());
            std::mem::swap(&mut entry, &mut self.entries[p]);
            assert(entry == old_entries[p as int]);
            entry.1.push(n);
            let ghost new_entry = entry;
            assert(new_entry.1@ == old_entries[p as int].1@.push(n));
            self.entries.set(p, entry);
            assert(self.entries@ == old_entries.update(p as int, new_entry));
            proof {
                assert(self.label_seq() =~= s);
                old(self).lemma_entry(p as int);
                assert forall|i: int| 0 <= i < self.entries@.len() implies (#[trigger] self.entries@[i]).1@.len() > 0 by {
                    if i != p {
                        assert(self.entries@[i] == old_entries[i]);
                    }
                }
                assert forall|k: Seq<char>| self.labels().contains_key(k) implies self.labels()[k]
                    == insert_label(old(self).labels(), label@, n)[k] by {
                    let i = s.index_of(k);
                    self.lemma_entry(i);
                    old(self).lemma_entry(i);
                    if i != p {
                        assert(self.entries@[i] == old_entries[i]);
                        if i < p {
                            lemma_text_lt_total(s[i], s[p as int]);
                        } else {
                            lemma_text_lt_total(s[p as int], s[i]);
                        }
                        assert(k != label@);
                    } else {
                        assert(k == label@);
                        assert(self.entries@[i].1@ == old_entries[i].1@.push(n));
                        assert(old(self).labels().contains_key(label@));
                    }
                }
                assert(self.labels() =~= insert_label(old(self).labels(), label@, n));
            }
        } else {
            let mut ids: Vec<u64> = Vec::new();
            ids.push(n);
            self.entries.insert(p, (label.to_string(), ids));
            proof {
                let t = self.label_seq();
                assert(t =~= s.insert(p as int, label@));
                assert forall|i: int, j: int| 0 <= i < j < t.len() implies text_lt(t[i], t[j]) by {
                    if j < p {
                    } else if i > p {
                        assert(t[i] == s[i - 1]);
                        assert(t[j] == s[j - 1]);
                    } else if i == p {
                        assert(t[j] == s[j - 1]);
                        if j - 1 > p {
                            lemma_text_lt_transitive(label@, s[p as int], s[j - 1]);
                        }
                    } else if j == p {
                    } else {
                        assert(t[j] == s[j - 1]);
                        if j - 1 > p {
                            lemma_text_lt_transitive(label@, s[p as int], s[j - 1]);
                        }
                        lemma_text_lt_transitive(s[i], label@, s[j - 1]);
                    }
                }
                assert(!s.contains(label@)) by {
                    if s.contains(label@) {
                        let k = s.index_of(label@);
                        if k < p {
                            lemma_text_lt_total(s[k], label@);
                        } else {
                            if k > p {
                                lemma_text_lt_transitive(label@, s[p as int], s[k]);
                            }
                            lemma_text_lt_total(label@, s[k]);
                        }
                    }
                }
                assert forall|i: int| 0 <= i < self.entries@.len() implies (#[trigger] self.entries@[i]).1@.len() > 0 by {
                    if i < p {
                        assert(self.entries@[i] == old_entries[i]);
                    } else if i > p {
                        assert(self.entries@[i] == old_entries[i - 1]);
                    }
                }
                assert forall|k: Seq<char>| self.labels().contains_key(k) implies self.labels()[k]
                    == insert_label(old(self).labels(), label@, n)[k] by {
                    let i = t.index_of(k);
                    self.lemma_entry(i);
                    if i < p {
                        old(self).lemma_entry(i);
                    } else if i > p {
                        old(self).lemma_entry(i - 1);
                        assert(self.entries@[i] == old_entries[i - 1]);
                    }
                }
                assert forall|k: Seq<char>| insert_label(old(self).labels(), label@, n).contains_key(k)
                    implies self.labels().contains_key(k) by {
                    if k != label@ {
                        let i = s.index_of(k);
                        if i < p {
                            assert(t[i] == k);
                        } else {
                            assert(t[i + 1] == k);
                        }
                    } else {
                        assert(t[p as int] == k);
                    }
                }
                assert(self.labels() =~= insert_label(old(self).labels(), label@, n));
            }
        }
    }

    /// The texts, in increasing order, as JSON strings.
    pub fn keys(&self) -> (r: Vec<JsonValue>)
        requires
            self.wf(),
        ensures
            r@.len() == sorted_texts_of(self.labels().dom()).len(),
            r@.len() == self.labels().dom().len(),
            forall|i: int| 0 <= i < r@.len() ==> (#[trigger] r@[i]).text() == Some(sorted_texts_of(self.labels().dom())[i]),
    {
        proof {
            self.lemma_label_seq();
            self.lemma_labels_finite();
        }
        let mut out: Vec<JsonValue> = Vec::new();
        let mut i: usize = 0;
        while i < self.entries.len()
            invariant
                i <= self.entries@.len(),
                out@.len() == i,
                forall|k: int| 0 <= k < i ==> (#[trigger] out@[k]).text() == Some(self.label_seq()[k]),
            decreases self.entries@.len() - i,
        {
            out.push(JsonValue::Str(self.entries[i].0.clone()));
            i = i + 1;
        }
        out
    }

    /// For each text, in increasing order, its numbers as JSON: one number
    /// alone, or an array of the numbers in increasing order.
    pub fn values(&self) -> (r: Vec<JsonValue>)
        requires
            self.wf(),
        ensures
            r@.len() == sorted_texts_of(self.labels().dom()).len(),
            r@.len() == self.labels().dom().len(),
            forall|i: int|
                0 <= i < r@.len() ==> ids_json(#[trigger] r@[i], self.labels()[sorted_texts_of(self.labels().dom())[i]]),
    {
        proof {
            self.lemma_label_seq();
            self.lemma_labels_finite();
        }
        let mut out: Vec<JsonValue> = Vec::new();
        let mut i: usize = 0;
        while i < self.entries.len()
            invariant
                self.wf(),
                i <= self.entries@.len(),
                out@.len() == i,
                forall|k: int| 0 <= k < i ==> ids_json(#[trigger] out@[k], self.entries@[k].1@),
            decreases self.entries@.len() - i,
        {
            let e = &self.entries[i].1;
            if e.len() == 1 {
                out.push(JsonValue::Number(JsonNumber::Unsigned(e[0])));
            } else {
                let esort = sort_u64(e);
                let mut items: Vec<JsonValue> = Vec::new();
                let mut k: usize = 0;
                while k < esort.len()
                    invariant
                        k <= esort@.len(),
                        items@.len() == k,
                        forall|m: int| 0 <= m < k ==> #[trigger] items@[m] == JsonValue::Number(JsonNumber::Unsigned(esort@[m])),
                    decreases esort@.len() - k,
                {
                    items.push(JsonValue::Number(JsonNumber::Unsigned(esort[k])));
                    k = k + 1;
                }
                let j = JsonValue::Array(items);
                proof {
                    assert(j.items().unwrap().map_values(|x: JsonValue| x.u64_value().unwrap()) =~= esort@);
                }
                out.push(j);
            }
            i = i + 1;
        }
        out
    }
}


/// The labels that `pairs` (key, label) give, each key numbered by a
/// dictionary (`ids`, last number `next`); pairs whose key is not in `keep`
/// are left out. Also gives the dictionary after.
pub open spec fn fold_labels(
    pairs: Seq<(Seq<char>, Seq<char>)>,
    keep: Set<Seq<char>>,
    ids: Map<Seq<char>, u64>,
    next: u64,
) -> (Map<Seq<char>, Seq<u64>>, Map<Seq<char>, u64>, u64)
    decreases pairs.len(),
{
    if pairs.len() == 0 {
        (Map::empty(), ids, next)
    } else {
        let (m, ids1, next1) = fold_labels(pairs.drop_last(), keep, ids, next);
        let p = pairs.last();
        if keep.contains(p.0) {
            let (n, ids2, next2) = dict_get(ids1, next1, p.0);
            (insert_label(m, p.1, n), ids2, next2)
        } else {
            (m, ids1, next1)
        }
    }
}

/// The labels that `fold_labels` gives are finitely many.
proof fn lemma_fold_labels_finite(
    pairs: Seq<(Seq<char>, Seq<char>)>,
    keep: Set<Seq<char>>,
    ids: Map<Seq<char>, u64>,
    next: u64,
)
    ensures
        fold_labels(pairs, keep, ids, next).0.dom().finite(),
    decreases pairs.len(),
{
    broadcast use vstd::set::group_set_axioms;
    if pairs.len() > 0 {
        lemma_fold_labels_finite(pairs.drop_last(), keep, ids, next);
    }
}

/// The facet labels of the classes that have one, in order.
pub open spec fn facet_labels(classes: Seq<u64>, labels: Map<u64, Seq<char>>) -> Seq<Seq<char>>
    decreases classes.len(),
{
    if classes.len() == 0 {
        Seq::empty()
    } else {
        let rest = facet_labels(classes.drop_last(), labels);
        let c = classes.last();
        if labels.contains_key(c) && labels[c] != Seq::<char>::empty() {
            rest.push(labels[c])
        } else {
            rest
        }
    }
}

/// Whether class `c` has a facet label in `labels`.
pub open spec fn has_facet(labels: Map<u64, Seq<char>>, c: u64) -> bool {
    labels.contains_key(c) && labels[c] != Seq::<char>::empty()
}

/// The facets of a document: in order, the label of each of its classes
/// that has a facet label; the classes without one (not configured, or
/// skipped) give none.
pub proof fn lemma_facets_of_labelled_classes(classes: Seq<u64>, labels: Map<u64, Seq<char>>)
    ensures
        facet_labels(classes, labels) == classes.filter(|c: u64| has_facet(labels, c)).map_values(
            |c: u64| labels[c],
        ),
    decreases classes.len(),
{
    reveal(Seq::filter);
    if classes.len() > 0 {
        lemma_facets_of_labelled_classes(classes.drop_last(), labels);
        let f = classes.drop_last().filter(|c: u64| has_facet(labels, c));
        let c = classes.last();
        if has_facet(labels, c) {
            assert(f.push(c).map_values(|c: u64| labels[c]) =~= f.map_values(|c: u64| labels[c]).push(labels[c]));
        }
    }
}

/// `j` is the array of the texts of `m`, in increasing order.
pub open spec fn keys_json(j: JsonValue, m: Map<Seq<char>, Seq<u64>>) -> bool {
    &&& j.items() is Some
    &&& j.items().unwrap().len() == sorted_texts_of(m.dom()).len()
    &&& forall|i: int|
        0 <= i < j.items().unwrap().len() ==> (#[trigger] j.items().unwrap()[i]).text() == Some(
            sorted_texts_of(m.dom())[i],
        )
}

/// `j` is the array of the numbers of each text of `m`, in increasing order of the texts.
pub open spec fn values_json(j: JsonValue, m: Map<Seq<char>, Seq<u64>>) -> bool {
    &&& j.items() is Some
    &&& j.items().unwrap().len() == sorted_texts_of(m.dom()).len()
    &&& forall|i: int|
        0 <= i < j.items().unwrap().len() ==> ids_json(
            #[trigger] j.items().unwrap()[i],
            m[sorted_texts_of(m.dom())[i]],
        )
}

/// The stored body of an entity: `a` its label texts, `b` its page titles,
/// `c` the languages of each label text, `d` the wiki sites of each title.
pub open spec fn body_json(body: JsonValue, labels: Map<Seq<char>, Seq<u64>>, sites: Map<Seq<char>, Seq<u64>>) -> bool {
    &&& body.members() is Some
    &&& body.members().unwrap().len() == 4
    &&& body.members().unwrap()[0].0@ == "a"@ && keys_json(body.members().unwrap()[0].1, labels)
    &&& body.members().unwrap()[1].0@ == "b"@ && keys_json(body.members().unwrap()[1].1, sites)
    &&& body.members().unwrap()[2].0@ == "c"@ && values_json(body.members().unwrap()[2].1, labels)
    &&& body.members().unwrap()[3].0@ == "d"@ && values_json(body.members().unwrap()[3].1, sites)
}

/// The position of each language of `list` (the last one, for a language
/// listed twice): the languages whose titles the stored bodies keep.
pub fn stats_names_of(list: &Vec<String>) -> (r: TextMap<usize>)
    ensures
        r.wf(),
        forall|k: Seq<char>| #[trigger] r@.contains_key(k) <==> texts(list@).contains(k),
        forall|i: int|
            0 <= i < list@.len() ==> {
                let p = r@[(#[trigger] list@[i])@] as int;
                &&& i <= p < list@.len()
                &&& list@[p]@ == list@[i]@
                &&& forall|j: int| p < j < list@.len() ==> list@[j]@ != list@[i]@
            },
{
    let mut names: TextMap<usize> = TextMap::new();
    let ghost all = texts(list@);
    let mut i: usize = 0;
    while i < list.len()
        invariant
            i <= list@.len(),
            all == texts(list@),
            names.wf(),
            forall|k: Seq<char>| #[trigger] names@.contains_key(k) <==> exists|j: int| 0 <= j < i && all[j] == k,
            forall|j: int|
                0 <= j < i ==> {
                    let p = names@[(#[trigger] list@[j])@] as int;
                    &&& j <= p < i
                    &&& list@[p]@ == list@[j]@
                    &&& forall|m: int| p < m < i ==> list@[m]@ != list@[j]@
                },
        decreases list@.len() - i,
    {
        assert(all[i as int] == list@[i as int]@);
        names.insert(list[i].clone(), i);
        i = i + 1;
    }
    proof {
        assert forall|k: Seq<char>| #[trigger] names@.contains_key(k) <==> all.contains(k) by {
            if all.contains(k) {
                let j = choose|j: int| 0 <= j < all.len() && all[j] == k;
                assert(0 <= j < i && all[j] == k);
            }
        }
    }
    names
}

/// What the indexer writes of one entity: in the entity index its number
/// and its body; in the label index (when it is searchable) its number,
/// rank, titles and facets.
#[derive(Debug)]
pub struct PreparedDocument {
    pub wid: u64,
    pub rank: u64,
    pub titles: Vec<String>,
    pub facets: Vec<String>,
    pub body: JsonValue,
    pub add_to_index: bool,
}

/// The texts of a list of strings.
proof fn lemma_texts_push(v: Seq<String>, s: String)
    ensures
        texts(v.push(s)) == texts(v).push(s@),
{
    assert(texts(v.push(s)) =~= texts(v).push(s@));
}

/// Prepares what the indexer writes of a document: every title is
/// searchable; the titles in a language of `stats_names` are grouped by text
/// in the body, with their languages numbered by `languages`; the pages are
/// grouped by title with their wiki sites numbered by `sitelinks`; the
/// classes that have a facet label give the facets.
pub fn prepare_document(
    doc: &WDDocument,
    stats_names: &TextMap<usize>,
    languages: &mut StringToId,
    sitelinks: &mut StringToId,
    instance_of: &InstanceOfMapping,
) -> (r: PreparedDocument)
    requires
        old(languages).wf(),
        old(sitelinks).wf(),
        old(languages).spec_next_id() + doc.titles@.len() < u64::MAX,
        old(sitelinks).spec_next_id() + doc.sitelinks@.len() < u64::MAX,
    ensures
        final(languages).wf(),
        final(sitelinks).wf(),
        forall|k: Seq<char>| #[trigger] old(languages).ids().contains_key(k) ==> final(languages).ids().contains_key(k)
            && final(languages).ids()[k] == old(languages).ids()[k],
        forall|k: Seq<char>| #[trigger] old(sitelinks).ids().contains_key(k) ==> final(sitelinks).ids().contains_key(k)
            && final(sitelinks).ids()[k] == old(sitelinks).ids()[k],
        r.wid == doc.wid,
        r.rank == doc.rank,
        r.add_to_index == doc.add_to_index,
        texts(r.titles@) == pair_texts(doc.titles@).map_values(|p: (Seq<char>, Seq<char>)| p.1),
        texts(r.facets@) == facet_labels(doc.instance_of@, instance_of.labels()),
        texts(r.facets@) == doc.instance_of@.filter(|c: u64| has_facet(instance_of.labels(), c)).map_values(
            |c: u64| instance_of.labels()[c],
        ),
        ({
            let (labels, ids, next) = fold_labels(
                pair_texts(doc.titles@),
                stats_names@.dom(),
                old(languages).ids(),
                old(languages).spec_next_id(),
            );
            let (sites, site_ids, site_next) = fold_labels(
                pair_texts(doc.sitelinks@),
                Set::full(),
                old(sitelinks).ids(),
                old(sitelinks).spec_next_id(),
            );
            &&& final(languages).ids() == ids
            &&& final(languages).spec_next_id() == next
            &&& final(sitelinks).ids() == site_ids
            &&& final(sitelinks).spec_next_id() == site_next
            &&& body_json(r.body, labels, sites)
            &&& labels.dom().finite()
            &&& sites.dom().finite()
        }),
{
    let ghost titles_in = pair_texts(doc.titles@);
    let ghost lang_ids0 = languages.ids();
    let ghost lang_next0 = languages.spec_next_id();
    let mut titles: Vec<String> = Vec::new();
    let mut labels = WeirdStruct::new();
    let mut i: usize = 0;
    while i < doc.titles.len()
        invariant
            i <= doc.titles@.len(),
            titles_in == pair_texts(doc.titles@),
            labels.wf(),
            languages.wf(),
            languages.spec_next_id() <= lang_next0 + i,
            forall|k: Seq<char>| #[trigger] lang_ids0.contains_key(k) ==> languages.ids().contains_key(k)
                && languages.ids()[k] == lang_ids0[k],
            lang_next0 + doc.titles@.len() < u64::MAX,
            ({
                let (m, ids, next) = fold_labels(titles_in.take(i as int), stats_names@.dom(), lang_ids0, lang_next0);
                &&& labels.labels() == m
                &&& languages.ids() == ids
                &&& languages.spec_next_id() == next
            }),
            texts(titles@) == titles_in.take(i as int).map_values(|p: (Seq<char>, Seq<char>)| p.1),
        decreases doc.titles@.len() - i,
    {
        let language = &doc.titles[i].0;
        let title = &doc.titles[i].1;
        proof {
            assert(titles_in.take(i + 1).drop_last() =~= titles_in.take(i as int));
            assert(titles_in.take(i + 1).last() == (language@, title@));
        }
        if stats_names.contains_key(language.as_str()) {
            labels.insert(language.as_str(), title.as_str(), languages);
        }
        let ghost before = titles@;
        titles.push(title.clone());
        proof {
            lemma_texts_push(before, *title);
            assert(titles_in.take(i + 1).map_values(|p: (Seq<char>, Seq<char>)| p.1) =~= titles_in.take(
                i as int,
            ).map_values(|p: (Seq<char>, Seq<char>)| p.1).push(title@));
        }
        i = i + 1;
    }
    proof {
        assert(titles_in.take(doc.titles@.len() as int) =~= titles_in);
    }
    let ghost sites_in = pair_texts(doc.sitelinks@);
    let ghost site_ids0 = sitelinks.ids();
    let ghost site_next0 = sitelinks.spec_next_id();
    let mut sites = WeirdStruct::new();
    let mut j: usize = 0;
    while j < doc.sitelinks.len()
        invariant
            j <= doc.sitelinks@.len(),
            sites_in == pair_texts(doc.sitelinks@),
            sites.wf(),
            sitelinks.wf(),
            sitelinks.spec_next_id() <= site_next0 + j,
            forall|k: Seq<char>| #[trigger] site_ids0.contains_key(k) ==> sitelinks.ids().contains_key(k)
                && sitelinks.ids()[k] == site_ids0[k],
            site_next0 + doc.sitelinks@.len() < u64::MAX,
            ({
                let (m, ids, next) = fold_labels(sites_in.take(j as int), Set::full(), site_ids0, site_next0);
                &&& sites.labels() == m
                &&& sitelinks.ids() == ids
                &&& sitelinks.spec_next_id() == next
            }),
        decreases doc.sitelinks@.len() - j,
    {
        proof {
            assert(sites_in.take(j + 1).drop_last() =~= sites_in.take(j as int));
            assert(sites_in.take(j + 1).last() == (doc.sitelinks@[j as int].0@, doc.sitelinks@[j as int].1@));
        }
        sites.insert(doc.sitelinks[j].0.as_str(), doc.sitelinks[j].1.as_str(), sitelinks);
        j = j + 1;
    }
    proof {
        assert(sites_in.take(doc.sitelinks@.len() as int) =~= sites_in);
    }
    let mut facets: Vec<String> = Vec::new();
    let mut k: usize = 0;
    while k < doc.instance_of.len()
        invariant
            k <= doc.instance_of@.len(),
            texts(facets@) == facet_labels(doc.instance_of@.take(k as int), instance_of.labels()),
        decreases doc.instance_of@.len() - k,
    {
        let c = doc.instance_of[k];
        proof {
            assert(doc.instance_of@.take(k + 1).drop_last() =~= doc.instance_of@.take(k as int));
        }
        let ghost before = facets@;
        match instance_of.get(&c) {
            InstanceOfType::Label(name) => {
                facets.push(name.clone());
                proof {
                    lemma_texts_push(before, *name);
                }
            },
            _ => {},
        }
        k = k + 1;
    }
    proof {
        assert(doc.instance_of@.take(doc.instance_of@.len() as int) =~= doc.instance_of@);
        lemma_facets_of_labelled_classes(doc.instance_of@, instance_of.labels());
    }
    proof {
        lemma_fold_labels_finite(titles_in, stats_names@.dom(), lang_ids0, lang_next0);
        lemma_fold_labels_finite(sites_in, Set::full(), site_ids0, site_next0);
    }
    let mut members: Vec<(String, JsonValue)> = Vec::new();
    members.push(("a".to_string(), JsonValue::Array(labels.keys())));
    members.push(("b".to_string(), JsonValue::Array(sites.keys())));
    members.push(("c".to_string(), JsonValue::Array(labels.values())));
    members.push(("d".to_string(), JsonValue::Array(sites.values())));
    PreparedDocument {
        wid: doc.wid,
        rank: doc.rank,
        titles,
        facets,
        body: JsonValue::Object(members),
        add_to_index: doc.add_to_index,
    }
}

} // verus!
