//! A verified document search library: tokenizing text into terms, counting
//! terms per document and over a corpus, caching built indices by root, and
//! ranking documents against free-text queries.
pub mod bignum;
pub mod counts;
pub mod files;
pub mod files_cache;
pub mod search;
pub mod term_counts;
pub mod tokenizer;
