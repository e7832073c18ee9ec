//! Verified core of a local Wikidata search engine: the indexer's data
//! preparation, the API's entity decoding, and the tokenizers.

pub mod api;
pub mod charabia_tokenizer;
pub mod facet;
pub mod indexer;
pub mod json;
pub mod sorting;
pub mod text;
pub mod text_map;
