pub mod bit_set;
pub mod data_input;
pub mod delete_policy;
pub mod error;
pub mod matching_reader;
