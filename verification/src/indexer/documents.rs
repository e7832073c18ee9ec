//! Wikidata items as the dump gives them, the documents the indexer makes of
//! them, and the pool that gathers documents until they are written.
use vstd::prelude::*;
use crate::json::JsonValue;
use crate::text_map::TextMap;
use crate::text::texts;
use crate::sorting::{distinct_texts, is_text_order, text_order_of};

verus! {

/// The value of a statement and its type.
#[derive(Debug)]
pub struct DataValue {
    pub value: JsonValue,
    pub dtype: String,
}

/// The main part of a statement.
#[derive(Debug)]
pub struct Snak {
    pub datatype: String,
    pub datavalue: DataValue,
}

/// A statement about an item, with its rank.
#[derive(Debug)]
pub struct Claim {
    pub rank: String,
    pub mainsnak: Snak,
}

/// The statements of an item that the indexer reads: its classes (P31).
#[derive(Debug)]
pub struct ClaimList {
    pub p31: Vec<Claim>,
}

/// A label or an alias.
#[derive(Debug)]
pub struct WikiLabel {
    pub value: String,
}

/// The page of an item on a wiki site.
#[derive(Debug)]
pub struct SiteLink {
    pub title: String,
}

/// A Wikidata item of the dump: its id (`Q42`), its labels and aliases by
/// language, its pages by wiki site, and its classes.
#[derive(Debug)]
pub struct WikidataItem {
    pub id: String,
    pub labels: Vec<(String, WikiLabel)>,
    pub aliases: Vec<(String, Vec<WikiLabel>)>,
    pub sitelinks: Vec<(String, SiteLink)>,
    pub claims: ClaimList,
}

/// What the indexer writes of an entity: its number and rank, its classes,
/// whether it is searchable, its titles (language and text; aliases and page
/// titles have no language) and its pages (wiki site and title).
pub struct WDDocument {
    pub wid: u64,
    pub rank: u64,
    pub instance_of: Vec<u64>,
    pub add_to_index: bool,
    pub titles: Vec<(String, String)>,
    pub sitelinks: Vec<(String, String)>,
}

/// Pairs of texts, as plain values.
pub open spec fn pair_texts(v: Seq<(String, String)>) -> Seq<(Seq<char>, Seq<char>)> {
    v.map_values(|p: (String, String)| (p.0@, p.1@))
}

/// The content of a document, as plain values.
pub struct WDDocumentView {
    pub wid: u64,
    pub rank: u64,
    pub instance_of: Seq<u64>,
    pub add_to_index: bool,
    pub titles: Seq<(Seq<char>, Seq<char>)>,
    pub sitelinks: Seq<(Seq<char>, Seq<char>)>,
}

impl View for WDDocument {
    type V = WDDocumentView;

    open spec fn view(&self) -> WDDocumentView {
        WDDocumentView {
            wid: self.wid,
            rank: self.rank,
            instance_of: self.instance_of@,
            add_to_index: self.add_to_index,
            titles: pair_texts(self.titles@),
            sitelinks: pair_texts(self.sitelinks@),
        }
    }
}

/// A copy of a list of text pairs.
fn clone_pairs(v: &Vec<(String, String)>) -> (r: Vec<(String, String)>)
    ensures
        pair_texts(r@) == pair_texts(v@),
{
    let mut out: Vec<(String, String)> = Vec::new();
    let mut i: usize = 0;
    while i < v.len()
        invariant
            i <= v@.len(),
            out@.len() == i,
            forall|k: int| 0 <= k < i ==> (#[trigger] out@[k]).0@ == v@[k].0@ && out@[k].1@ == v@[k].1@,
        decreases v@.len() - i,
    {
        out.push((v[i].0.clone(), v[i].1.clone()));
        i = i + 1;
    }
    assert(pair_texts(out@) =~= pair_texts(v@));
    out
}

/// A copy of a list of numbers.
fn clone_numbers(v: &Vec<u64>) -> (r: Vec<u64>)
    ensures
        r@ == v@,
{
    let mut out: Vec<u64> = Vec::new();
    let mut i: usize = 0;
    while i < v.len()
        invariant
            i <= v@.len(),
            out@ =~= v@.take(i as int),
        decreases v@.len() - i,
    {
        out.push(v[i]);
        i = i + 1;
    }
    assert(v@.take(v@.len() as int) =~= v@);
    out
}

impl WDDocument {
    /// A document without titles nor pages.
    pub fn new(wid: u64, rank: u64, instance_of: Vec<u64>, add_to_index: bool) -> (r: WDDocument)
        ensures
            r@ == (WDDocumentView {
                wid,
                rank,
                instance_of: instance_of@,
                add_to_index,
                titles: Seq::empty(),
                sitelinks: Seq::empty(),
            }),
    {
        let r = WDDocument {
            wid: wid,
            rank: rank,
            instance_of: instance_of,
            add_to_index: add_to_index,
            titles: Vec::new(),
            sitelinks: Vec::new(),
        };
        assert(pair_texts(r.titles@) =~= Seq::empty());
        assert(pair_texts(r.sitelinks@) =~= Seq::empty());
        r
    }

    /// A copy of the document.
    pub fn duplicate(&self) -> (r: WDDocument)
        ensures
            r@ == self@,
    {
        WDDocument {
            wid: self.wid,
            rank: self.rank,
            instance_of: clone_numbers(&self.instance_of),
            add_to_index: self.add_to_index,
            titles: clone_pairs(&self.titles),
            sitelinks: clone_pairs(&self.sitelinks),
        }
    }
}

/// The documents of a group, as plain values.
pub open spec fn document_views(docs: Seq<WDDocument>) -> Seq<WDDocumentView> {
    docs.map_values(|d: WDDocument| d@)
}

/// The number of documents in all groups.
pub open spec fn total_documents(groups: Seq<(String, Vec<WDDocument>)>) -> nat
    decreases groups.len(),
{
    if groups.len() == 0 {
        0
    } else {
        total_documents(groups.drop_last()) + groups.last().1@.len()
    }
}

proof fn lemma_total_push_in_group(groups: Seq<(String, Vec<WDDocument>)>, i: int, g: (String, Vec<WDDocument>))
    requires
        0 <= i < groups.len(),
        g.1@.len() == groups[i].1@.len() + 1,
    ensures
        total_documents(groups.update(i, g)) == total_documents(groups) + 1,
    decreases groups.len(),
{
    if i < groups.len() - 1 {
        lemma_total_push_in_group(groups.drop_last(), i, g);
        assert(groups.update(i, g).drop_last() =~= groups.drop_last().update(i, g));
    } else {
        assert(groups.update(i, g).drop_last() =~= groups.drop_last());
    }
}

/// How many documents the indexer gathers before it writes them.
pub const BATCH_SIZE: u64 = 2_000_000;

/// Documents gathered by key (the English label), until they are written.
pub struct WDDocumentPool {
    index: TextMap<usize>,
    groups: Vec<(String, Vec<WDDocument>)>,
    len: u64,
}

/// The total number of documents that `docs` holds under the keys `keys`.
pub open spec fn documents_total(keys: Seq<Seq<char>>, docs: Map<Seq<char>, Seq<WDDocumentView>>) -> nat
    decreases keys.len(),
{
    if keys.len() == 0 {
        0
    } else {
        documents_total(keys.drop_last(), docs) + docs[keys.last()].len()
    }
}

impl WDDocumentPool {
    /// The documents of each key, in the order they were added.
    pub closed spec fn documents(&self) -> Map<Seq<char>, Seq<WDDocumentView>> {
        Map::new(
            |k: Seq<char>| self.index@.contains_key(k),
            |k: Seq<char>| document_views(self.groups@[self.index@[k] as int].1@),
        )
    }

    /// The keys, in the order they were first met.
    pub closed spec fn keys_met(&self) -> Seq<Seq<char>> {
        self.index.key_order()
    }

    /// The groups follow the keys, each key once, and `len` counts the documents.
    pub closed spec fn wf(&self) -> bool {
        &&& self.index.wf()
        &&& self.groups@.len() == self.index.key_order().len()
        &&& forall|i: int| 0 <= i < self.groups@.len() ==> (#[trigger] self.groups@[i]).0@ == self.index.key_order()[i]
        &&& forall|i: int| 0 <= i < self.groups@.len() ==> self.index@[#[trigger] self.index.key_order()[i]] == i
        &&& forall|i: int| 0 <= i < self.groups@.len() ==> (#[trigger] self.groups@[i]).1@.len() > 0
        &&& self.len == total_documents(self.groups@)
    }

    /// The number of documents in the pool, as counted.
    pub closed spec fn spec_len(&self) -> nat {
        total_documents(self.groups@)
    }

    proof fn lemma_index(&self)
        requires
            self.wf(),
        ensures
            forall|k: Seq<char>| #[trigger] self.index@.contains_key(k) ==> {
                let i = self.index@[k] as int;
                &&& 0 <= i < self.groups@.len()
                &&& self.groups@[i].0@ == k
            },
    {
        self.index.lemma_key_order();
        assert forall|k: Seq<char>| #[trigger] self.index@.contains_key(k) implies {
            let i = self.index@[k] as int;
            &&& 0 <= i < self.groups@.len()
            &&& self.groups@[i].0@ == k
        } by {
            assert(self.index.key_order().contains(k));
            let j = choose|j: int| 0 <= j < self.index.key_order().len() && self.index.key_order()[j] == k;
            assert(self.index@[self.index.key_order()[j]] == j);
            assert(self.groups@[j].0@ == k);
        }
    }

    /// The pool counts every document it holds: its count is the total of
    /// the documents of its keys, each key (met once) holds at least one
    /// document, and the keys met are exactly the keys that hold documents.
    pub proof fn lemma_pool_count(&self)
        requires
            self.wf(),
        ensures
            self.spec_len() == documents_total(self.keys_met(), self.documents()),
            forall|k: Seq<char>| #[trigger] self.documents().contains_key(k) ==> self.documents()[k].len() > 0,
            forall|k: Seq<char>| #[trigger] self.documents().contains_key(k) <==> self.keys_met().contains(k),
            forall|i: int, j: int|
                0 <= i < self.keys_met().len() && 0 <= j < self.keys_met().len() && i != j
                    ==> self.keys_met()[i] != self.keys_met()[j],
    {
        self.lemma_index();
        self.index.lemma_key_order();
        self.lemma_count_upto(self.groups@.len() as int);
        assert(self.groups@.take(self.groups@.len() as int) =~= self.groups@);
        assert(self.keys_met().take(self.groups@.len() as int) =~= self.keys_met());
    }

    proof fn lemma_count_upto(&self, n: int)
        requires
            self.wf(),
            0 <= n <= self.groups@.len(),
        ensures
            total_documents(self.groups@.take(n)) == documents_total(self.keys_met().take(n), self.documents()),
        decreases n,
    {
        if n > 0 {
            self.lemma_count_upto(n - 1);
            self.lemma_index();
            assert(self.groups@.take(n).drop_last() =~= self.groups@.take(n - 1));
            assert(self.keys_met().take(n).drop_last() =~= self.keys_met().take(n - 1));
            let k = self.keys_met()[n - 1];
            assert(self.index@[self.index.key_order()[n - 1]] == n - 1);
            self.index.lemma_key_order();
            assert(self.index.key_order().contains(k));
            assert(self.documents().contains_key(k));
            assert(self.documents()[k] == document_views(self.groups@[n - 1].1@));
        }
    }

    /// The number of documents in the pool.
    pub fn len(&self) -> (r: u64)
        requires
            self.wf(),
        ensures
            r == self.spec_len(),
    {
        self.len
    }

    /// An empty pool.
    pub fn new() -> (r: WDDocumentPool)
        ensures
            r.wf(),
            r.documents() == Map::<Seq<char>, Seq<WDDocumentView>>::empty(),
            r.keys_met() == Seq::<Seq<char>>::empty(),
            r.spec_len() == 0,
    {
        let r = WDDocumentPool { index: TextMap::new(), groups: Vec::new(), len: 0 };
        assert(r.documents() =~= Map::<Seq<char>, Seq<WDDocumentView>>::empty());
        r
    }

    /// Empties the pool.
    pub fn clear(&mut self)
        ensures
            final(self).wf(),
            final(self).documents() == Map::<Seq<char>, Seq<WDDocumentView>>::empty(),
            final(self).keys_met() == Seq::<Seq<char>>::empty(),
            final(self).spec_len() == 0,
    {
        *self = WDDocumentPool::new();
    }

    /// Adds a copy of a document under `key`, after the documents already there.
    pub fn insert(&mut self, key: String, wddocument: &WDDocument)
        requires
            old(self).wf(),
            old(self).spec_len() < u64::MAX,
        ensures
            final(self).wf(),
            final(self).spec_len() == old(self).spec_len() + 1,
            final(self).documents() == old(self).documents().insert(
                key@,
                if old(self).documents().contains_key(key@) {
                    old(self).documents()[key@].push(wddocument@)
                } else {
                    seq![wddocument@]
                },
            ),
            final(self).keys_met() == if old(self).documents().contains_key(key@) {
                old(self).keys_met()
            } else {
                old(self).keys_met().push(key@)
            },
    {
        proof {
            self.lemma_index();
        }
        let copy = wddocument.duplicate();
        let ghost old_groups = self.groups@;
        match self.index.get(key.as_str()) {
            Some(gi) => {
                let i = *gi;
                // take the group out, push the copy, and put it back
                let mut group = (String::new(), Vec::new());
                std::mem::swap(&mut group, &mut self.groups[i]);
                assert(group == old_groups[i as int]);
                group.1.push(copy);
                proof {
                    lemma_total_push_in_group(old_groups, i as int, group);
                }
                self.groups.set(i, group);
                self.len = self.len + 1;
                proof {
                    assert(self.groups@ == old_groups.update(i as int, group));
                    assert(self.documents() =~= old(self).documents().insert(
                        key@,
                        old(self).documents()[key@].push(wddocument@),
                    )) by {
                        assert(document_views(group.1@) =~= document_views(old_groups[i as int].1@).push(
                            wddocument@,
                        ));
                        self.lemma_index();
                    }
                }
            },
            None => {
                let i = self.groups.len();
                self.index.insert(key.clone(), i);
                let mut docs: Vec<WDDocument> = Vec::new();
                docs.push(copy);
                self.groups.push((key, docs));
                self.len = self.len + 1;
                proof {
                    assert(self.groups@.drop_last() =~= old_groups);
                    old(self).index.lemma_key_order();
                    assert(document_views(docs@) =~= seq![wddocument@]);
                    assert(self.documents() =~= old(self).documents().insert(key@, seq![wddocument@])) by {
                        self.lemma_index();
                    }
                }
            },
        }
    }

    /// Whether the pool holds a whole batch, so that it is time to write it.
    pub fn is_full(&self) -> (r: bool)
        requires
            self.wf(),
        ensures
            r == (self.spec_len() >= BATCH_SIZE),
    {
        self.len >= BATCH_SIZE
    }

    /// The keys of the groups, in the order they were first met.
    pub fn group_keys(&self) -> (r: Vec<String>)
        requires
            self.wf(),
        ensures
            texts(r@) == self.keys_met(),
            distinct_texts(r@),
    {
        let mut out: Vec<String> = Vec::new();
        let mut i: usize = 0;
        while i < self.groups.len()
            invariant
                self.wf(),
                i <= self.groups@.len(),
                out@.len() == i,
                forall|k: int| 0 <= k < i ==> #[trigger] out@[k]@ == self.index.key_order()[k],
            decreases self.groups@.len() - i,
        {
            out.push(self.groups[i].0.clone());
            i = i + 1;
        }
        assert(texts(out@) =~= self.keys_met());
        proof {
            self.index.lemma_key_order();
        }
        out
    }

    /// The positions of the groups in increasing order of their keys: the
    /// order in which an ordered map of the keys yields them.
    pub fn write_order(&self) -> (r: Vec<usize>)
        requires
            self.wf(),
        ensures
            exists|keys: Seq<String>| texts(keys) == self.keys_met() && #[trigger] is_text_order(keys, r@),
    {
        let keys = self.group_keys();
        let r = text_order_of(&keys);
        r
    }

    /// The key of group `i`.
    pub fn group_key(&self, i: usize) -> (r: &String)
        requires
            self.wf(),
            i < self.keys_met().len(),
        ensures
            r@ == self.keys_met()[i as int],
    {
        &self.groups[i].0
    }

    /// The documents of group `i`, in the order they were added.
    pub fn group(&self, i: usize) -> (r: &Vec<WDDocument>)
        requires
            self.wf(),
            i < self.keys_met().len(),
        ensures
            document_views(r@) == self.documents()[self.keys_met()[i as int]],
    {
        proof {
            self.lemma_index();
            self.index.lemma_key_order();
            assert(self.index@.contains_key(self.keys_met()[i as int]));
        }
        &self.groups[i].1
    }
}

} // verus!
