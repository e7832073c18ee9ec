//! The popularity rank of each entity (from QRank), used to order search results.
use std::collections::HashMap;
use vstd::prelude::*;
use vstd::string::*;
use crate::text::{parse_u64, u64_from_text, texts};

verus! {

broadcast use vstd::std_specs::hash::group_hash_axioms;

/// The rank of each entity, by entity number.
pub struct Ranks {
    pub ranks: HashMap<u64, u64>,
}

/// Why a line of the rank file could not be read.
#[derive(Debug, PartialEq, Eq, Structural, Clone, Copy)]
pub enum RankRecordError {
    /// The entity (`Q` then a number) is not written as expected.
    BadEntity,
    /// The rank is not a number.
    BadRank,
}

/// The entity number and the rank a line of the rank file gives: the entity
/// field is a letter (`Q`) then a number, the rank field a number.
pub open spec fn rank_record(id_field: Seq<char>, rank_field: Seq<char>) -> Result<(u64, u64), RankRecordError> {
    if id_field.len() == 0 || u64_from_text(id_field.drop_first()) is None {
        Err(RankRecordError::BadEntity)
    } else if u64_from_text(rank_field) is None {
        Err(RankRecordError::BadRank)
    } else {
        Ok((u64_from_text(id_field.drop_first()).unwrap(), u64_from_text(rank_field).unwrap()))
    }
}

/// The records that the csv crate reads from `bytes` with its default
/// settings (the first row is a header and is not a record): the fields of
/// each record, in order; `None` when a record cannot be read.
pub uninterp spec fn csv_rows(bytes: Seq<u8>) -> Option<Seq<Seq<Seq<char>>>>;

/// Calls `csv::Reader::from_reader` on `bytes` and collects the fields of
/// each record that `records()` yields; `None` as soon as one of them is an
/// error. The records are named by `csv_rows`; nothing more is claimed.
#[verifier::external_body]
fn csv_parse(bytes: &[u8]) -> (r: Option<Vec<Vec<String>>>)
    ensures
        r is Some <==> csv_rows(bytes@) is Some,
        r matches Some(rows) ==> rows@.map_values(|row: Vec<String>| texts(row@)) == csv_rows(bytes@).unwrap(),
{
    let mut reader = csv::Reader::from_reader(bytes);
    let mut rows: Vec<Vec<String>> = Vec::new();
    for record in reader.records() {
        match record {
            Ok(fields) => rows.push(fields.iter().map(|f| f.to_string()).collect()),
            Err(_) => return None,
        }
    }
    Some(rows)
}

/// The ranks that the records of a rank file give, later records winning:
/// `None` when a record has fewer than two fields or its entity and rank
/// (its first two fields) cannot be read.
pub open spec fn ranks_of_rows(rows: Seq<Seq<Seq<char>>>) -> Option<Map<u64, u64>>
    decreases rows.len(),
{
    if rows.len() == 0 {
        Some(Map::empty())
    } else {
        match ranks_of_rows(rows.drop_last()) {
            None => None,
            Some(m) => {
                let row = rows.last();
                if row.len() < 2 {
                    None
                } else {
                    match rank_record(row[0], row[1]) {
                        Ok((wid, rank)) => Some(m.insert(wid, rank)),
                        Err(_) => None,
                    }
                }
            },
        }
    }
}

/// The ranks of a rank file, given as bytes: one record per entity, its id
/// (`Q42`) then its rank. `None` when the file cannot be read as CSV, or a
/// record has fewer than two fields or fields that cannot be read.
pub fn ranks_from_csv(bytes: &[u8]) -> (r: Option<Ranks>)
    ensures
        r is Some <==> (csv_rows(bytes@) is Some && ranks_of_rows(csv_rows(bytes@).unwrap()) is Some),
        r matches Some(ranks) ==> ranks.ranks@ == ranks_of_rows(csv_rows(bytes@).unwrap()).unwrap(),
{
    let rows = match csv_parse(bytes) {
        None => return None,
        Some(rows) => rows,
    };
    let ghost all = rows@.map_values(|row: Vec<String>| texts(row@));
    let mut ranks = Ranks::new();
    let mut i: usize = 0;
    while i < rows.len()
        invariant
            i <= rows@.len(),
            all == rows@.map_values(|row: Vec<String>| texts(row@)),
            all == csv_rows(bytes@).unwrap(),
            ranks_of_rows(all.take(i as int)) == Some(ranks.ranks@),
        decreases rows@.len() - i,
    {
        let row = &rows[i];
        proof {
            assert(all.take(i + 1).drop_last() =~= all.take(i as int));
            assert(all.take(i + 1).last() == texts(row@));
            assert(texts(row@).len() == row@.len());
        }
        if row.len() < 2 {
            proof {
                lemma_failed_rows_stay_failed(all, i + 1);
            }
            return None;
        }
        proof {
            assert(texts(row@)[0] == row@[0]@);
            assert(texts(row@)[1] == row@[1]@);
        }
        match ranks.add_record(row[0].as_str(), row[1].as_str()) {
            Ok(()) => {},
            Err(_) => {
                proof {
                    lemma_failed_rows_stay_failed(all, i + 1);
                }
                return None;
            },
        }
        i = i + 1;
    }
    assert(all.take(rows@.len() as int) =~= all);
    Some(ranks)
}

/// Once a prefix of the records cannot be read, neither can the whole.
proof fn lemma_failed_rows_stay_failed(rows: Seq<Seq<Seq<char>>>, k: int)
    requires
        0 <= k <= rows.len(),
        ranks_of_rows(rows.take(k)) is None,
    ensures
        ranks_of_rows(rows) is None,
    decreases rows.len() - k,
{
    if k < rows.len() {
        assert(rows.take(k + 1).drop_last() =~= rows.take(k));
        lemma_failed_rows_stay_failed(rows, k + 1);
    } else {
        assert(rows.take(k) =~= rows);
    }
}

impl Ranks {
    /// No ranks.
    pub fn new() -> (r: Ranks)
        ensures
            r.ranks@ == Map::<u64, u64>::empty(),
    {
        Ranks { ranks: HashMap::new() }
    }

    /// The rank of entity `wid`; 0 for an entity without rank.
    pub fn get(&self, wid: u64) -> (r: u64)
        ensures
            r == if self.ranks@.contains_key(wid) {
                self.ranks@[wid]
            } else {
                0
            },
    {
        match self.ranks.get(&wid) {
            Some(rank) => *rank,
            None => 0,
        }
    }

    /// Reads one line of the rank file (its entity and rank fields) and
    /// records the rank; a line that cannot be read changes nothing.
    pub fn add_record(&mut self, id_field: &str, rank_field: &str) -> (r: Result<(), RankRecordError>)
        ensures
            r is Ok <==> rank_record(id_field@, rank_field@) is Ok,
            r matches Err(e) ==> rank_record(id_field@, rank_field@) == Err::<(u64, u64), RankRecordError>(e)
                && final(self).ranks@ == old(self).ranks@,
            rank_record(id_field@, rank_field@) matches Ok((wid, rank)) ==> final(self).ranks@ == old(
                self,
            ).ranks@.insert(wid, rank),
    {
        let n = id_field.unicode_len();
        if n == 0 {
            return Err(RankRecordError::BadEntity);
        }
        let number = id_field.substring_char(1, n);
        assert(number@ =~= id_field@.drop_first());
        let nid = match parse_u64(number) {
            Some(v) => v,
            None => return Err(RankRecordError::BadEntity),
        };
        let rank = match parse_u64(rank_field) {
            Some(v) => v,
            None => return Err(RankRecordError::BadRank),
        };
        self.ranks.insert(nid, rank);
        Ok(())
    }
}

} // verus!
