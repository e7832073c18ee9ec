//! The search API: reading the stored entities back.

pub mod infobox;
pub mod read_back;
pub mod storage;
pub mod string_to_id;
