//! Finding previously asked questions that resemble a new one, through a
//! vocabulary of word embeddings, a curated keyword list and inverted indexes.
use vstd::prelude::*;

pub mod text;
pub mod word;
pub mod near_words;
pub mod word_file;
pub mod listed_keywords;
pub mod sentences;
pub mod database_backend;
pub mod flatfile_database_backend;
pub mod comparison_list;

verus! {

} // verus!
