//! The indexer: turning Wikidata items into the documents of the search indexes.

pub mod documents;
pub mod instance_of;
pub mod parse;
pub mod ranks;
pub mod string_to_id;
pub mod write;
