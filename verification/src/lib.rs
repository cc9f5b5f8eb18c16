//! A character-trie inverted index.
//!
//! Tokens are sequences of Unicode codepoints; each trie node holds the
//! postings (document reference to term weight) of the token that ends at
//! that node, a count of the distinct documents among those postings, and
//! one child edge per next codepoint. The index supports insertion,
//! tombstone removal, prefix-aware lookup, and a one-shot conversion to a
//! recursive interchange value in which child nodes are inlined beside the
//! bookkeeping fields.

pub mod inverted_index;
pub mod laws;
pub mod node;
pub mod serial;
