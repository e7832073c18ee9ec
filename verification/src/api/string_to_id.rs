//! The dictionaries that number languages and wiki sites, as the API reads them.
use std::collections::HashMap;
use vstd::prelude::*;
use vstd::hash_map::StringHashMap;
use crate::text::{decimal_text, u64_to_string, clone_texts, texts};
use crate::sorting::distinct_texts;

verus! {

broadcast use {vstd::std_specs::hash::group_hash_axioms, vstd::hash_map::group_hash_map_axioms};

/// The map that `entries` describes, later entries winning.
pub open spec fn id_map(entries: Seq<(String, u64)>) -> Map<Seq<char>, u64>
    decreases entries.len(),
{
    if entries.len() == 0 {
        Map::empty()
    } else {
        id_map(entries.drop_last()).insert(entries.last().0@, entries.last().1)
    }
}

/// The names of `pairs`, by number, later pairs winning.
pub open spec fn name_map(pairs: Seq<(u64, String)>) -> Map<u64, Seq<char>>
    decreases pairs.len(),
{
    if pairs.len() == 0 {
        Map::empty()
    } else {
        name_map(pairs.drop_last()).insert(pairs.last().0, pairs.last().1@)
    }
}

/// `base`, then each entry's number mapped back to its text, later entries winning.
pub open spec fn reversed_onto(base: Map<u64, Seq<char>>, entries: Seq<(String, u64)>) -> Map<
    u64,
    Seq<char>,
>
    decreases entries.len(),
{
    if entries.len() == 0 {
        base
    } else {
        reversed_onto(base, entries.drop_last()).insert(entries.last().1, entries.last().0@)
    }
}

/// The texts of the entries.
pub open spec fn entry_texts(entries: Seq<(String, u64)>) -> Seq<Seq<char>> {
    entries.map_values(|e: (String, u64)| e.0@)
}

/// A dictionary from texts (language codes, wiki site names) to numbers,
/// with the way back from numbers to texts.
pub struct StringToId {
    map: StringHashMap<u64>,
    names: Vec<String>,
    next_id: u64,
    reverse_map: HashMap<u64, String>,
}

impl StringToId {
    /// The number of each known text.
    pub closed spec fn ids(&self) -> Map<Seq<char>, u64> {
        self.map@
    }

    /// The text of each number that can be turned back.
    pub closed spec fn texts_by_id(&self) -> Map<u64, Seq<char>> {
        self.reverse_map@.map_values(|s: String| s@)
    }

    /// The text that `get_string` gives for `id`.
    pub open spec fn text_of(&self, id: u64) -> Seq<char> {
        if self.texts_by_id().contains_key(id) {
            self.texts_by_id()[id]
        } else {
            decimal_text(id as nat)
        }
    }

    /// The next number the dictionary would give out.
    pub closed spec fn spec_next_id(&self) -> u64 {
        self.next_id
    }

    /// The known texts are listed once each.
    pub closed spec fn wf(&self) -> bool {
        &&& forall|i: int, j: int|
            0 <= i < self.names@.len() && 0 <= j < self.names@.len() && i != j
                ==> self.names@[i]@ != self.names@[j]@
        &&& forall|i: int| 0 <= i < self.names@.len() ==> self.map@.contains_key(#[trigger] self.names@[i]@)
        &&& forall|k: Seq<char>| #[trigger] self.map@.contains_key(k) ==> exists|i: int|
            0 <= i < self.names@.len() && self.names@[i]@ == k
    }

    /// An empty dictionary.
    pub fn new() -> (r: StringToId)
        ensures
            r.wf(),
            r.ids() == Map::<Seq<char>, u64>::empty(),
            r.texts_by_id() == Map::<u64, Seq<char>>::empty(),
            r.spec_next_id() == 0,
    {
        let r = StringToId {
            map: StringHashMap::new(),
            names: Vec::new(),
            next_id: 0,
            reverse_map: HashMap::new(),
        };
        assert(r.texts_by_id() =~= Map::<u64, Seq<char>>::empty());
        r
    }

    /// The dictionary that a saved file describes: its `map` entries, its
    /// `next_id` and its `reverse_map` pairs (often none); each entry's
    /// number is then mapped back to its text.
    pub fn from_parts(
        entries: Vec<(String, u64)>,
        next_id: u64,
        reverse_entries: Vec<(u64, String)>,
    ) -> (r: StringToId)
        requires
            forall|i: int, j: int|
                0 <= i < entries@.len() && 0 <= j < entries@.len() && i != j
                    ==> entries@[i].0@ != entries@[j].0@,
        ensures
            r.wf(),
            r.ids() == id_map(entries@),
            r.texts_by_id() == reversed_onto(name_map(reverse_entries@), entries@),
            r.spec_next_id() == next_id,
    {
        let mut reverse_map: HashMap<u64, String> = HashMap::new();
        let mut i: usize = 0;
        while i < reverse_entries.len()
            invariant
                i <= reverse_entries@.len(),
                reverse_map@.map_values(|s: String| s@) == name_map(reverse_entries@.take(i as int)),
            decreases reverse_entries@.len() - i,
        {
            let (id, name) = (reverse_entries[i].0, reverse_entries[i].1.clone());
            reverse_map.insert(id, name);
            proof {
                assert(reverse_entries@.take(i + 1).drop_last() =~= reverse_entries@.take(i as int));
            }
            i = i + 1;
            assert(reverse_map@.map_values(|s: String| s@) =~= name_map(reverse_entries@.take(i as int)));
        }
        assert(reverse_entries@.take(reverse_entries@.len() as int) =~= reverse_entries@);
        let ghost base = name_map(reverse_entries@);
        let mut map: StringHashMap<u64> = StringHashMap::new();
        let mut names: Vec<String> = Vec::new();
        let mut j: usize = 0;
        while j < entries.len()
            invariant
                j <= entries@.len(),
                forall|a: int, b: int|
                    0 <= a < entries@.len() && 0 <= b < entries@.len() && a != b
                        ==> entries@[a].0@ != entries@[b].0@,
                map@ == id_map(entries@.take(j as int)),
                reverse_map@.map_values(|s: String| s@) == reversed_onto(base, entries@.take(j as int)),
                names@.len() == j,
                forall|k: int| 0 <= k < j ==> #[trigger] names@[k]@ == entries@[k].0@,
            decreases entries@.len() - j,
        {
            let key = entries[j].0.clone();
            let id = entries[j].1;
            map.insert(entries[j].0.clone(), id);
            reverse_map.insert(id, key);
            names.push(entries[j].0.clone());
            proof {
                assert(entries@.take(j + 1).drop_last() =~= entries@.take(j as int));
            }
            j = j + 1;
            assert(reverse_map@.map_values(|s: String| s@) =~= reversed_onto(base, entries@.take(j as int)));
        }
        assert(entries@.take(entries@.len() as int) =~= entries@);
        let r = StringToId { map, names, next_id, reverse_map };
        proof {
            lemma_id_map_domain(entries@);
            assert forall|k: Seq<char>| #[trigger] r.map@.contains_key(k) implies exists|i: int|
                0 <= i < r.names@.len() && r.names@[i]@ == k by {
                let i = choose|i: int| 0 <= i < entries@.len() && entries@[i].0@ == k;
                assert(r.names@[i]@ == k);
            }
            assert forall|i: int| 0 <= i < r.names@.len() implies r.map@.contains_key(
                #[trigger] r.names@[i]@,
            ) by {
                assert(r.names@[i]@ == entries@[i].0@);
            }
        }
        r
    }

    /// Whether `key` is a known text.
    pub fn contains_key(&self, key: &str) -> (r: bool)
        ensures
            r == self.ids().contains_key(key@),
    {
        self.map.contains_key(key)
    }

    /// The number of a known text (an unknown one is a caller's error).
    pub fn get(&self, key: String) -> (r: u64)
        requires
            self.ids().contains_key(key@),
        ensures
            r == self.ids()[key@],
    {
        *self.map.get(key.as_str()).unwrap()
    }

    /// The text of a number, or the number written in decimal when the
    /// dictionary cannot turn it back.
    pub fn get_string(&self, id: u64) -> (r: String)
        ensures
            r@ == self.text_of(id),
    {
        match self.reverse_map.get(&id) {
            Some(v) => v.clone(),
            None => u64_to_string(id),
        }
    }

    /// Every known text, once each.
    pub fn keys(&self) -> (r: Vec<String>)
        requires
            self.wf(),
        ensures
            distinct_texts(r@),
            forall|i: int| 0 <= i < r@.len() ==> self.ids().contains_key(#[trigger] r@[i]@),
            forall|k: Seq<char>| #[trigger] self.ids().contains_key(k) ==> texts(r@).contains(k),
    {
        let r = clone_texts(&self.names);
        proof {
            assert forall|k: Seq<char>| #[trigger] self.ids().contains_key(k) implies texts(
                r@,
            ).contains(k) by {
                let i = choose|i: int| 0 <= i < self.names@.len() && self.names@[i]@ == k;
                assert(texts(r@)[i] == k);
            }
        }
        r
    }
}

proof fn lemma_id_map_domain(entries: Seq<(String, u64)>)
    ensures
        forall|k: Seq<char>| #[trigger] id_map(entries).contains_key(k) <==> exists|i: int|
            0 <= i < entries.len() && entries[i].0@ == k,
    decreases entries.len(),
{
    if entries.len() > 0 {
        lemma_id_map_domain(entries.drop_last());
        assert forall|k: Seq<char>| #[trigger] id_map(entries).contains_key(k) implies exists|i: int|
            0 <= i < entries.len() && entries[i].0@ == k by {
            if k != entries.last().0@ {
                assert(id_map(entries.drop_last()).contains_key(k));
                let i = choose|i: int|
                    0 <= i < entries.drop_last().len() && entries.drop_last()[i].0@ == k;
                assert(entries[i].0@ == k);
            } else {
                assert(entries[entries.len() - 1].0@ == k);
            }
        }
        assert forall|k: Seq<char>|
            (exists|i: int| 0 <= i < entries.len() && entries[i].0@ == k) implies #[trigger] id_map(
            entries,
        ).contains_key(k) by {
            let i = choose|i: int| 0 <= i < entries.len() && entries[i].0@ == k;
            if i < entries.len() - 1 {
                assert(entries.drop_last()[i].0@ == k);
                assert(id_map(entries.drop_last()).contains_key(k));
            }
        }
    }
}

/// A dictionary loaded from entries whose numbers are all different (as the
/// indexer writes them) turns each number back into its own text:
/// `get_string(get(k)) == k` for every known `k`.
pub proof fn lemma_loaded_names_invert_ids(
    entries: Seq<(String, u64)>,
    base: Map<u64, Seq<char>>,
)
    requires
        forall|i: int, j: int|
            0 <= i < entries.len() && 0 <= j < entries.len() && i != j ==> entries[i].0@
                != entries[j].0@,
        forall|i: int, j: int|
            0 <= i < entries.len() && 0 <= j < entries.len() && i != j ==> entries[i].1
                != entries[j].1,
    ensures
        forall|k: Seq<char>| #[trigger] id_map(entries).contains_key(k) ==> {
            &&& reversed_onto(base, entries).contains_key(id_map(entries)[k])
            &&& reversed_onto(base, entries)[id_map(entries)[k]] == k
        },
    decreases entries.len(),
{
    if entries.len() > 0 {
        let rest = entries.drop_last();
        lemma_loaded_names_invert_ids(rest, base);
        lemma_id_map_domain(rest);
        assert forall|k: Seq<char>| #[trigger] id_map(entries).contains_key(k) implies {
            &&& reversed_onto(base, entries).contains_key(id_map(entries)[k])
            &&& reversed_onto(base, entries)[id_map(entries)[k]] == k
        } by {
            if k != entries.last().0@ {
                assert(id_map(rest).contains_key(k));
                let i = choose|i: int| 0 <= i < rest.len() && rest[i].0@ == k;
                lemma_id_map_value(rest, i);
                assert(entries[i].1 != entries[entries.len() - 1].1);
            }
        }
    }
}

proof fn lemma_id_map_value(entries: Seq<(String, u64)>, i: int)
    requires
        0 <= i < entries.len(),
        forall|a: int, b: int|
            0 <= a < entries.len() && 0 <= b < entries.len() && a != b ==> entries[a].0@
                != entries[b].0@,
    ensures
        id_map(entries).contains_key(entries[i].0@),
        id_map(entries)[entries[i].0@] == entries[i].1,
    decreases entries.len(),
{
    if i < entries.len() - 1 {
        lemma_id_map_value(entries.drop_last(), i);
        assert(entries.drop_last()[i] == entries[i]);
        assert(entries[i].0@ != entries[entries.len() - 1].0@);
    }
}

/// The dictionary that the indexer saves and the API loads: loading the
/// entries of an indexer's dictionary (each text with its number, in the
/// order they were met) gives the same numbers, and turns each number back
/// into its own text, whatever `reverse_map` pairs the saved file also held.
pub proof fn lemma_saved_dictionary_reloads(
    d: crate::indexer::string_to_id::StringToId,
    entries: Seq<(String, u64)>,
    base: Map<u64, Seq<char>>,
)
    requires
        d.wf(),
        entries.len() == d.order().len(),
        forall|i: int| 0 <= i < entries.len() ==> #[trigger] entries[i].0@ == d.order()[i] && entries[i].1 == i + 1,
    ensures
        forall|i: int, j: int|
            0 <= i < entries.len() && 0 <= j < entries.len() && i != j ==> entries[i].0@ != entries[j].0@,
        id_map(entries) == d.ids(),
        forall|k: Seq<char>| #[trigger] d.ids().contains_key(k) ==> {
            &&& reversed_onto(base, entries).contains_key(d.ids()[k])
            &&& reversed_onto(base, entries)[d.ids()[k]] == k
        },
{
    d.lemma_order();
    assert forall|i: int, j: int|
        0 <= i < entries.len() && 0 <= j < entries.len() && i != j implies entries[i].0@ != entries[j].0@ by {
        assert(entries[i].0@ == d.order()[i] && entries[j].0@ == d.order()[j]);
    }
    lemma_id_map_domain(entries);
    assert forall|k: Seq<char>| id_map(entries).contains_key(k) <==> d.ids().contains_key(k) by {
        if id_map(entries).contains_key(k) {
            let i = choose|i: int| 0 <= i < entries.len() && entries[i].0@ == k;
            assert(d.order()[i] == k);
        }
        if d.ids().contains_key(k) {
            let i = choose|i: int| 0 <= i < d.order().len() && d.order()[i] == k;
            assert(entries[i].0@ == k);
        }
    }
    assert forall|k: Seq<char>| #[trigger] id_map(entries).contains_key(k) implies id_map(entries)[k]
        == d.ids()[k] by {
        let i = choose|i: int| 0 <= i < entries.len() && entries[i].0@ == k;
        lemma_id_map_value(entries, i);
        assert(d.order()[i] == k);
    }
    assert(id_map(entries) =~= d.ids());
    lemma_loaded_names_invert_ids(entries, base);
}

} // verus!
