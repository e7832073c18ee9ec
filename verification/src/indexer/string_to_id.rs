//! The dictionaries that number languages and wiki sites as the indexer
//! meets them: the first text gets 1, the next new text 2, and so on.
use vstd::prelude::*;
use crate::text_map::TextMap;
use crate::text::texts;

verus! {

/// Some text has the number `n`.
pub open spec fn number_held(ids: Map<Seq<char>, u64>, n: u64) -> bool {
    exists|k: Seq<char>| #[trigger] ids.contains_key(k) && ids[k] == n
}

/// The texts of `s`, each where it is first met.
pub open spec fn first_met(s: Seq<Seq<char>>) -> Seq<Seq<char>>
    decreases s.len(),
{
    if s.len() == 0 {
        Seq::empty()
    } else if first_met(s.drop_last()).contains(s.last()) {
        first_met(s.drop_last())
    } else {
        first_met(s.drop_last()).push(s.last())
    }
}

/// A dictionary that gives each new text the next number, from 1 on.
pub struct StringToId {
    map: TextMap<u64>,
    next_id: u64,
}

impl StringToId {
    /// The number of each known text.
    pub closed spec fn ids(&self) -> Map<Seq<char>, u64> {
        self.map@
    }

    /// The known texts, in the order they were met.
    pub closed spec fn order(&self) -> Seq<Seq<char>> {
        self.map.key_order()
    }

    /// The last number given out (0 when none was).
    pub closed spec fn spec_next_id(&self) -> u64 {
        self.next_id
    }

    /// The `i`-th text met has number `i + 1`.
    pub closed spec fn wf(&self) -> bool {
        &&& self.map.wf()
        &&& self.next_id == self.map.key_order().len()
        &&& forall|i: int|
            0 <= i < self.map.key_order().len() ==> #[trigger] self.map@[self.map.key_order()[i]]
                == i + 1
    }

    /// An empty dictionary.
    pub fn new() -> (r: StringToId)
        ensures
            r.wf(),
            r.ids() == Map::<Seq<char>, u64>::empty(),
            r.order() == Seq::<Seq<char>>::empty(),
            r.spec_next_id() == 0,
    {
        StringToId { map: TextMap::new(), next_id: 0 }
    }

    /// The number of `key`; a new text gets the next number.
    pub fn get(&mut self, key: String) -> (r: u64)
        requires
            old(self).wf(),
            old(self).ids().contains_key(key@) || old(self).spec_next_id() < u64::MAX,
        ensures
            final(self).wf(),
            old(self).ids().contains_key(key@) ==> {
                &&& r == old(self).ids()[key@]
                &&& final(self).ids() == old(self).ids()
                &&& final(self).order() == old(self).order()
                &&& final(self).spec_next_id() == old(self).spec_next_id()
            },
            !old(self).ids().contains_key(key@) ==> {
                &&& r == old(self).spec_next_id() + 1
                &&& final(self).ids() == old(self).ids().insert(key@, r)
                &&& final(self).order() == old(self).order().push(key@)
                &&& final(self).spec_next_id() == r
            },
    {
        match self.map.get(key.as_str()) {
            Some(id) => *id,
            None => {
                self.next_id = self.next_id + 1;
                let id = self.next_id;
                self.map.insert(key, id);
                proof {
                    old(self).map.lemma_key_order();
                    assert forall|i: int| 0 <= i < self.map.key_order().len() implies #[trigger] self.map@[
                        self.map.key_order()[i]] == i + 1 by {
                        if i < old(self).map.key_order().len() {
                            assert(self.map.key_order()[i] == old(self).map.key_order()[i]);
                            assert(old(self).map.key_order()[i] != key@) by {
                                assert(old(self).map@.contains_key(old(self).map.key_order()[i]));
                            }
                        }
                    }
                }
                id
            },
        }
    }

    /// The texts met are listed once each, they are exactly the known texts,
    /// and the `i`-th has number `i + 1`; so every number from 1 to the last
    /// one given out is held by exactly one text.
    pub proof fn lemma_order(&self)
        requires
            self.wf(),
        ensures
            forall|i: int, j: int|
                0 <= i < self.order().len() && 0 <= j < self.order().len() && i != j ==> self.order()[i]
                    != self.order()[j],
            forall|k: Seq<char>| #[trigger] self.ids().contains_key(k) <==> self.order().contains(k),
            forall|i: int| 0 <= i < self.order().len() ==> self.ids()[#[trigger] self.order()[i]] == i + 1,
            self.order().len() == self.spec_next_id(),
            forall|n: u64| 1 <= n <= self.spec_next_id() ==> #[trigger] number_held(self.ids(), n),
    {
        self.map.lemma_key_order();
        assert forall|n: u64| 1 <= n <= self.spec_next_id() implies #[trigger] number_held(self.ids(), n) by {
            let i: int = n - 1;
            let k = self.order()[i];
            assert(0 <= i < self.map.key_order().len());
            assert(self.map@[self.map.key_order()[i]] == i + 1);
            assert(self.order().contains(k));
            assert(self.ids().contains_key(k) && self.ids()[k] == n);
        }
    }

    /// A dictionary that has numbered the texts of `list` in order: each
    /// text gets a number the first time it is met.
    pub fn from_list(list: &Vec<String>) -> (r: StringToId)
        requires
            list@.len() < u64::MAX,
        ensures
            r.wf(),
            r.order() == first_met(texts(list@)),
            forall|k: Seq<char>| #[trigger] r.ids().contains_key(k) <==> texts(list@).contains(k),
    {
        let mut d = StringToId::new();
        let ghost all = texts(list@);
        let mut i: usize = 0;
        assert(all.take(0) =~= Seq::<Seq<char>>::empty());
        while i < list.len()
            invariant
                i <= list@.len(),
                list@.len() < u64::MAX,
                all == texts(list@),
                d.wf(),
                d.spec_next_id() <= i,
                d.order() == first_met(all.take(i as int)),
                forall|k: Seq<char>| #[trigger] d.ids().contains_key(k) <==> all.take(i as int).contains(k),
            decreases list@.len() - i,
        {
            proof {
                d.lemma_order();
                assert(all.take(i + 1).drop_last() =~= all.take(i as int));
                assert(all.take(i + 1).last() == list@[i as int]@);
            }
            d.get(list[i].clone());
            proof {
                let t0 = all.take(i as int);
                let t1 = all.take(i + 1);
                assert forall|k: Seq<char>| #[trigger] d.ids().contains_key(k) <==> t1.contains(k) by {
                    if t0.contains(k) {
                        let j = choose|j: int| 0 <= j < t0.len() && t0[j] == k;
                        assert(t1[j] == k);
                    }
                    if t1.contains(k) {
                        let j = choose|j: int| 0 <= j < t1.len() && t1[j] == k;
                        if j < i {
                            assert(t0[j] == k);
                        }
                    }
                }
            }
            i = i + 1;
        }
        assert(all.take(list@.len() as int) =~= all);
        d
    }

    /// The last number given out.
    pub fn next_id(&self) -> (r: u64)
        ensures
            r == self.spec_next_id(),
    {
        self.next_id
    }

    /// Every known text with its number, in the order they were met.
    pub fn entries(&self) -> (r: Vec<(String, u64)>)
        requires
            self.wf(),
        ensures
            r@.len() == self.order().len(),
            forall|i: int| 0 <= i < r@.len() ==> #[trigger] r@[i].0@ == self.order()[i] && r@[i].1 == i + 1,
    {
        let keys = self.map.keys();
        let mut out: Vec<(String, u64)> = Vec::new();
        let mut i: usize = 0;
        while i < keys.len()
            invariant
                texts(keys@) == self.order(),
                self.wf(),
                i <= keys@.len(),
                out@.len() == i,
                forall|k: int| 0 <= k < i ==> #[trigger] out@[k].0@ == self.order()[k] && out@[k].1 == k + 1,
            decreases keys@.len() - i,
        {
            assert(texts(keys@)[i as int] == keys@[i as int]@);
            out.push((keys[i].clone(), (i + 1) as u64));
            i = i + 1;
        }
        out
    }
}

/// Different texts get different numbers, all from 1 to the last one given out.
pub proof fn lemma_ids_distinct(d: StringToId)
    requires
        d.wf(),
    ensures
        forall|a: Seq<char>, b: Seq<char>|
            #[trigger] d.ids().contains_key(a) && #[trigger] d.ids().contains_key(b) && a != b
                ==> d.ids()[a] != d.ids()[b],
        forall|a: Seq<char>|
            #[trigger] d.ids().contains_key(a) ==> 1 <= d.ids()[a] <= d.spec_next_id(),
{
    assert forall|a: Seq<char>| #[trigger] d.ids().contains_key(a) implies exists|i: int|
        0 <= i < d.order().len() && d.order()[i] == a by {
        d.map.lemma_key_order();
        assert(d.map@.contains_key(a));
        assert(d.map.key_order().contains(a));
        let i = choose|i: int| 0 <= i < d.map.key_order().len() && d.map.key_order()[i] == a;
        assert(d.order()[i] == a);
    }
    assert forall|a: Seq<char>, b: Seq<char>|
        #[trigger] d.ids().contains_key(a) && #[trigger] d.ids().contains_key(b) && a != b implies d.ids()[a]
        != d.ids()[b] by {
        let i = choose|i: int| 0 <= i < d.order().len() && d.order()[i] == a;
        let j = choose|j: int| 0 <= j < d.order().len() && d.order()[j] == b;
        assert(d.map@[d.map.key_order()[i]] == i + 1);
        assert(d.map@[d.map.key_order()[j]] == j + 1);
    }
    assert forall|a: Seq<char>| #[trigger] d.ids().contains_key(a) implies 1 <= d.ids()[a]
        <= d.spec_next_id() by {
        let i = choose|i: int| 0 <= i < d.order().len() && d.order()[i] == a;
        assert(d.map@[d.map.key_order()[i]] == i + 1);
    }
}

} // verus!
