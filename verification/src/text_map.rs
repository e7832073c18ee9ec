//! A map keyed by text that also remembers its keys in insertion order.
use vstd::prelude::*;
use vstd::hash_map::StringHashMap;
use crate::text::{clone_texts, texts};
use crate::sorting::distinct_texts;

verus! {

broadcast use vstd::hash_map::group_hash_map_axioms;

/// A map from texts to values; its keys can be listed, in the order in
/// which they were first inserted.
#[verifier::reject_recursive_types(V)]
pub struct TextMap<V> {
    map: StringHashMap<V>,
    keys: Vec<String>,
}

impl<V> View for TextMap<V> {
    type V = Map<Seq<char>, V>;

    closed spec fn view(&self) -> Map<Seq<char>, V> {
        self.map@
    }
}

impl<V> TextMap<V> {
    /// The keys, in the order of their first insertion.
    pub closed spec fn key_order(&self) -> Seq<Seq<char>> {
        texts(self.keys@)
    }

    /// The keys are listed once each, and they are exactly the map's keys.
    pub closed spec fn wf(&self) -> bool {
        &&& distinct_texts(self.keys@)
        &&& forall|i: int| 0 <= i < self.keys@.len() ==> self.map@.contains_key(#[trigger] self.keys@[i]@)
        &&& forall|k: Seq<char>| #[trigger] self.map@.contains_key(k) ==> texts(self.keys@).contains(k)
    }

    /// The key order lists every key once, and nothing else.
    pub proof fn lemma_key_order(&self)
        requires
            self.wf(),
        ensures
            forall|k: Seq<char>| #[trigger] self@.contains_key(k) <==> self.key_order().contains(k),
            forall|i: int, j: int|
                0 <= i < self.key_order().len() && 0 <= j < self.key_order().len() && i != j
                    ==> self.key_order()[i] != self.key_order()[j],
    {
        assert forall|k: Seq<char>| self.key_order().contains(k) implies #[trigger] self@.contains_key(k) by {
            let i = choose|i: int| 0 <= i < self.key_order().len() && self.key_order()[i] == k;
            assert(self.keys@[i]@ == k);
        }
        assert forall|i: int, j: int|
            0 <= i < self.key_order().len() && 0 <= j < self.key_order().len() && i != j implies self.key_order()[i]
            != self.key_order()[j] by {
            assert(self.key_order()[i] == self.keys@[i]@);
            assert(self.key_order()[j] == self.keys@[j]@);
        }
    }

    /// An empty map.
    pub fn new() -> (r: Self)
        ensures
            r.wf(),
            r@ == Map::<Seq<char>, V>::empty(),
            r.key_order() == Seq::<Seq<char>>::empty(),
    {
        let r = TextMap { map: StringHashMap::new(), keys: Vec::new() };
        assert(r.key_order() =~= Seq::<Seq<char>>::empty());
        r
    }

    /// Whether `k` is a key.
    pub fn contains_key(&self, k: &str) -> (r: bool)
        ensures
            r == self@.contains_key(k@),
    {
        self.map.contains_key(k)
    }

    /// The value of `k`, if it is a key.
    pub fn get(&self, k: &str) -> (r: Option<&V>)
        ensures
            match r {
                Some(v) => self@.contains_key(k@) && *v == self@[k@],
                None => !self@.contains_key(k@),
            },
    {
        self.map.get(k)
    }

    /// Sets the value of `k`; a new key goes at the end of the key order.
    pub fn insert(&mut self, k: String, v: V)
        requires
            old(self).wf(),
        ensures
            final(self).wf(),
            final(self)@ == old(self)@.insert(k@, v),
            final(self).key_order() == if old(self)@.contains_key(k@) {
                old(self).key_order()
            } else {
                old(self).key_order().push(k@)
            },
    {
        if !self.map.contains_key(k.as_str()) {
            let ghost old_keys = self.keys@;
            self.keys.push(k.clone());
            proof {
                assert(texts(self.keys@) =~= texts(old_keys).push(k@));
                assert forall|i: int, j: int|
                    0 <= i < self.keys@.len() && 0 <= j < self.keys@.len() && i != j implies self.keys@[i]@
                    != self.keys@[j]@ by {
                    if i == self.keys@.len() - 1 {
                        assert(!texts(old_keys).contains(self.keys@[j]@) || self.keys@[j]@ != k@);
                        assert(texts(old_keys)[j] == old_keys[j]@);
                    } else if j == self.keys@.len() - 1 {
                        assert(texts(old_keys)[i] == old_keys[i]@);
                    }
                }
            }
        }
        self.map.insert(k, v);
        proof {
            assert forall|i: int| 0 <= i < self.keys@.len() implies self.map@.contains_key(
                #[trigger] self.keys@[i]@,
            ) by {
                if self.keys@[i]@ != k@ {
                    assert(old(self).keys@.len() <= i || old(self).keys@[i] == self.keys@[i]);
                }
            }
            assert forall|key: Seq<char>| #[trigger] self.map@.contains_key(key) implies texts(
                self.keys@,
            ).contains(key) by {
                if key == k@ {
                    if old(self)@.contains_key(k@) {
                        assert(texts(old(self).keys@).contains(key));
                    } else {
                        assert(texts(self.keys@)[self.keys@.len() - 1] == k@);
                    }
                } else {
                    assert(texts(old(self).keys@).contains(key));
                    let i = choose|i: int| 0 <= i < texts(old(self).keys@).len() && texts(old(self).keys@)[i] == key;
                    assert(texts(self.keys@)[i] == key);
                }
            }
        }
    }

    /// The keys, in the order of their first insertion.
    pub fn keys(&self) -> (r: Vec<String>)
        ensures
            texts(r@) == self.key_order(),
    {
        clone_texts(&self.keys)
    }

    /// The number of keys.
    pub fn len(&self) -> (r: usize)
        requires
            self.wf(),
        ensures
            r == self.key_order().len(),
    {
        self.keys.len()
    }
}

} // verus!
