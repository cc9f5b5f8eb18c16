//! One-shot conversion of the trie into its recursive interchange value:
//! a map with a `df` entry, a `docs` entry, and one entry per child edge,
//! inlined beside the two bookkeeping fields rather than nested under a
//! named key. A single-codepoint edge literally spelt `df` or `docs`
//! would collide with the bookkeeping entries; that is a constraint of
//! the interchange format itself, preserved here.

use vstd::prelude::*;
use vstd::string::StringExecFns;

use crate::inverted_index::InvertedIndex;
use crate::node::IndexItem;
use crate::node::TermFrequency;

verus! {

/// A node of the interchange value: an integer (the distinct-document
/// count), a term weight (an opaque 64-bit payload), or a map given as
/// ordered key/value entries.
#[derive(Debug, PartialEq)]
pub enum SerialValue {
    Int(u64),
    Weight(u64),
    Object(Vec<(String, SerialValue)>),
}

/// Relies on char::to_string: the string holding exactly the one codepoint.
#[verifier::external_body]
fn char_to_string(c: char) -> (r: String)
    ensures
        r@ == seq![c],
{
    c.to_string()
}

/// One entry of the `docs` map: the document reference, mapped to a
/// one-entry map carrying the stored weight under `tf`.
pub open spec fn doc_entry_matches(e: (String, SerialValue), d: (String, TermFrequency)) -> bool {
    &&& e.0@ == d.0@
    &&& match e.1 {
        SerialValue::Object(m) => {
            &&& m@.len() == 1
            &&& m@[0].0@ == "tf"@
            &&& m@[0].1 == SerialValue::Weight(d.1.term_freq)
        },
        _ => false,
    }
}

/// The interchange value of a node: first `df` with the distinct-document
/// count, then `docs` with one entry per posting in storage order, then
/// one entry per child edge in storage order, keyed by the edge's
/// codepoint and holding the child's own interchange value.
pub open spec fn represents(v: SerialValue, n: IndexItem) -> bool
    decreases n,
{
    match v {
        SerialValue::Object(entries) => {
            &&& entries@.len() == 2 + n.children@.len()
            &&& entries@[0].0@ == "df"@
            &&& entries@[0].1 == SerialValue::Int(n.doc_freq)
            &&& entries@[1].0@ == "docs"@
            &&& match entries@[1].1 {
                SerialValue::Object(docs_entries) => {
                    &&& docs_entries@.len() == n.docs@.len()
                    &&& forall|i: int|
                        0 <= i < n.docs@.len() ==> doc_entry_matches(
                            #[trigger] docs_entries@[i],
                            n.docs@[i],
                        )
                },
                _ => false,
            }
            &&& forall|i: int|
                0 <= i < n.children@.len() ==> (#[trigger] entries@[2 + i]).0@ == seq![
                    n.children@[i].0,
                ] && represents(entries@[2 + i].1, n.children@[i].1)
        },
        _ => false,
    }
}

impl IndexItem {
    /// Builds the interchange value of the subtree rooted at this node.
    pub fn serialize(&self) -> (v: SerialValue)
        ensures
            represents(v, *self),
        decreases *self,
    {
        let mut entries: Vec<(String, SerialValue)> = Vec::new();
        entries.push((String::from_str("df"), SerialValue::Int(self.doc_freq)));
        let mut docs_entries: Vec<(String, SerialValue)> = Vec::new();
        let n = self.docs.len();
        let mut i: usize = 0;
        while i < n
            invariant
                n == self.docs@.len(),
                i <= n,
                docs_entries@.len() == i,
                forall|k: int|
                    0 <= k < i ==> doc_entry_matches(#[trigger] docs_entries@[k], self.docs@[k]),
            decreases n - i,
        {
            let mut inner: Vec<(String, SerialValue)> = Vec::new();
            inner.push((String::from_str("tf"), SerialValue::Weight(self.docs[i].1.term_freq)));
            docs_entries.push((self.docs[i].0.clone(), SerialValue::Object(inner)));
            i += 1;
        }
        entries.push((String::from_str("docs"), SerialValue::Object(docs_entries)));
        let m = self.children.len();
        let mut j: usize = 0;
        while j < m
            invariant
                m == self.children@.len(),
                j <= m,
                entries@.len() == 2 + j,
                entries@[0].0@ == "df"@,
                entries@[0].1 == SerialValue::Int(self.doc_freq),
                entries@[1].0@ == "docs"@,
                match entries@[1].1 {
                    SerialValue::Object(docs_entries) => {
                        &&& docs_entries@.len() == self.docs@.len()
                        &&& forall|k: int|
                            0 <= k < self.docs@.len() ==> doc_entry_matches(
                                #[trigger] docs_entries@[k],
                                self.docs@[k],
                            )
                    },
                    _ => false,
                },
                forall|k: int|
                    0 <= k < j ==> (#[trigger] entries@[2 + k]).0@ == seq![self.children@[k].0]
                        && represents(entries@[2 + k].1, self.children@[k].1),
            decreases m - j,
        {
            let child_value = self.children[j].1.serialize();
            entries.push((char_to_string(self.children[j].0), child_value));
            j += 1;
        }
        SerialValue::Object(entries)
    }
}

impl InvertedIndex {
    /// Builds the interchange value of the whole index. The outermost map
    /// is the root node's own: the index adds no wrapper around it.
    pub fn serialize(&self) -> (v: SerialValue)
        ensures
            represents(v, self.root),
    {
        self.root.serialize()
    }
}

} // verus!
