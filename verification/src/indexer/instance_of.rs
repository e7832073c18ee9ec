//! What the indexer does with an entity, given the classes it is an
//! instance of (P31): file it under a facet, skip it, or keep it out of the
//! search index.
use std::collections::{HashMap, HashSet};
use vstd::prelude::*;
use crate::text::text_eq;

verus! {

broadcast use vstd::std_specs::hash::group_hash_axioms;

/// The configuration of classes: the facet label of each known class
/// (an empty label marks a class whose instances are skipped), and the
/// classes whose instances are stored but not searchable.
#[derive(Debug)]
pub struct InstanceOfMapping {
    map: HashMap<u64, String>,
    ignore: Vec<u64>,
    do_not_index: HashSet<u64>,
}

/// What a class means for its instances.
pub enum InstanceOfType<'a> {
    /// The class is not configured.
    NotFound,
    /// Instances are filed under this facet label.
    Label(&'a String),
    /// Instances are skipped.
    IgnoreEntity,
}

/// `map` with every class of `ignore` given the empty label.
pub open spec fn with_ignored(map: Map<u64, Seq<char>>, ignore: Seq<u64>) -> Map<u64, Seq<char>>
    decreases ignore.len(),
{
    if ignore.len() == 0 {
        map
    } else {
        with_ignored(map, ignore.drop_last()).insert(ignore.last(), Seq::empty())
    }
}

impl InstanceOfMapping {
    /// The label of each configured class.
    pub closed spec fn labels(&self) -> Map<u64, Seq<char>> {
        self.map@.map_values(|s: String| s@)
    }

    /// The classes whose instances are kept out of the search index.
    pub closed spec fn not_indexed(&self) -> Set<u64> {
        self.do_not_index@
    }

    /// The classes listed as skipped.
    pub closed spec fn ignored(&self) -> Seq<u64> {
        self.ignore@
    }

    /// An empty configuration.
    pub fn new() -> (r: InstanceOfMapping)
        ensures
            r.labels() == Map::<u64, Seq<char>>::empty(),
            r.not_indexed() == Set::<u64>::empty(),
            r.ignored() == Seq::<u64>::empty(),
    {
        let r = InstanceOfMapping { map: HashMap::new(), ignore: Vec::new(), do_not_index: HashSet::new() };
        assert(r.labels() =~= Map::<u64, Seq<char>>::empty());
        r
    }

    /// The configuration a file describes (its `instance_of` labels, its
    /// `ignore` list and its `do_not_index` set): every class of `ignore`
    /// gets the empty label, which marks its instances as skipped.
    pub fn from_config(map: HashMap<u64, String>, ignore: Vec<u64>, do_not_index: HashSet<u64>) -> (r:
        InstanceOfMapping)
        ensures
            r.labels() == with_ignored(map@.map_values(|s: String| s@), ignore@),
            r.not_indexed() == do_not_index@,
            r.ignored() == ignore@,
    {
        let mut result = InstanceOfMapping { map, ignore, do_not_index };
        let ghost base = result.map@.map_values(|s: String| s@);
        let mut i: usize = 0;
        while i < result.ignore.len()
            invariant
                i <= result.ignore@.len(),
                result.ignore@ == ignore@,
                result.do_not_index@ == do_not_index@,
                result.map@.map_values(|s: String| s@) == with_ignored(base, result.ignore@.take(i as int)),
            decreases result.ignore@.len() - i,
        {
            let id = result.ignore[i];
            result.map.insert(id, "".to_string());
            proof {
                reveal_strlit("");
                assert(""@ =~= Seq::<char>::empty());
                assert(result.ignore@.take(i + 1).drop_last() =~= result.ignore@.take(i as int));
            }
            i = i + 1;
            assert(result.map@.map_values(|s: String| s@) =~= with_ignored(base, result.ignore@.take(i as int)));
        }
        assert(result.ignore@.take(result.ignore@.len() as int) =~= result.ignore@);
        result
    }

    /// Whether instances of class `id` are kept out of the search index.
    pub fn is_indexed(&self, id: &u64) -> (r: bool)
        ensures
            r == self.not_indexed().contains(*id),
    {
        self.do_not_index.contains(id)
    }

    /// What class `id` means for its instances.
    pub fn get(&self, id: &u64) -> (r: InstanceOfType<'_>)
        ensures
            r is NotFound <==> !self.labels().contains_key(*id),
            r is IgnoreEntity <==> self.labels().contains_key(*id) && self.labels()[*id]
                == Seq::<char>::empty(),
            r matches InstanceOfType::Label(name) ==> self.labels().contains_key(*id)
                && self.labels()[*id] == name@ && name@ != Seq::<char>::empty(),
    {
        match self.map.get(id) {
            Some(name) => {
                proof {
                    reveal_strlit("");
                    assert(""@ =~= Seq::<char>::empty());
                    assert(self.labels().contains_key(*id));
                    assert(self.labels()[*id] == name@);
                }
                if text_eq(name.as_str(), "") {
                    return InstanceOfType::IgnoreEntity;
                }
                InstanceOfType::Label(name)
            },
            None => {
                assert(!self.map@.contains_key(*id));
                assert(!self.labels().contains_key(*id));
                InstanceOfType::NotFound
            },
        }
    }
}

} // verus!
