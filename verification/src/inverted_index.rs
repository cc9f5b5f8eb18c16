//! The public index: a thin wrapper that owns the root trie node and
//! exposes insertion, tombstone removal, and the lookup operations, with
//! contracts stated over the set of known paths and the postings map at
//! each path.

use vstd::prelude::*;
use vstd::string::StrSliceExecFns;

use crate::node::doc_keys_unique;
use crate::node::doc_map;
use crate::node::find_doc;
use crate::node::lemma_doc_map_index;
use crate::node::lemma_doc_map_len;
use crate::node::lemma_prefix_basics;
use crate::node::lookup_child;
use crate::node::prefix_set;
use crate::node::tf_of;
use crate::node::IndexItem;
use crate::node::TermFrequency;

verus! {

/// An inverted index over a trie of Unicode codepoints. The root node
/// stands for the empty prefix and never carries postings of its own.
#[derive(Debug)]
pub struct InvertedIndex {
    pub root: IndexItem,
}

/// Key uniqueness for the pairs handed out by `get_docs`.
pub open spec fn pair_keys_unique(s: Seq<(String, u64)>) -> bool {
    forall|i: int, j: int| 0 <= i < j < s.len() ==> s[i].0@ != s[j].0@
}

/// The pairs handed out by `get_docs`, as a map.
pub open spec fn pair_map(s: Seq<(String, u64)>) -> Map<Seq<char>, u64>
    decreases s.len(),
{
    if s.len() == 0 {
        Map::empty()
    } else {
        pair_map(s.drop_last()).insert(s.last().0@, s.last().1)
    }
}

/// Entry-for-entry matching pair and postings sequences denote the same map.
proof fn lemma_pair_map_matches(a: Seq<(String, u64)>, b: Seq<(String, TermFrequency)>)
    requires
        a.len() == b.len(),
        forall|i: int|
            0 <= i < a.len() ==> (#[trigger] a[i]).0@ == b[i].0@ && a[i].1 == b[i].1.term_freq,
    ensures
        pair_map(a) == doc_map(b),
        doc_keys_unique(b) ==> pair_keys_unique(a),
    decreases a.len(),
{
    if a.len() == 0 {
    } else {
        assert(forall|i: int| 0 <= i < a.drop_last().len() ==> a.drop_last()[i] == a[i]);
        assert(forall|i: int| 0 <= i < b.drop_last().len() ==> b.drop_last()[i] == b[i]);
        lemma_pair_map_matches(a.drop_last(), b.drop_last());
        assert(a.last().0@ == b.last().0@ && a.last().1 == b.last().1.term_freq);
    }
}

impl InvertedIndex {
    /// Well-formed index: a well-formed trie whose root holds no postings.
    pub open spec fn wf(self) -> bool {
        &&& self.root.inv()
        &&& self.root.docs@.len() == 0
    }

    /// The set of all token paths that lead to a node, the empty token
    /// included. A token is in this set exactly when it is a prefix of
    /// some token that was added at some point.
    pub open spec fn nodes(self) -> Set<Seq<char>> {
        self.root.paths()
    }

    /// The postings stored for a token: document reference to weight.
    /// Empty both for a token with no node and for a node whose postings
    /// were all removed.
    pub open spec fn postings(self, t: Seq<char>) -> Map<Seq<char>, u64> {
        self.root.post_at(t)
    }

    /// An empty index: only the empty path, no postings anywhere.
    pub fn new() -> (r: InvertedIndex)
        ensures
            r.wf(),
            forall|t: Seq<char>| r.nodes().contains(t) <==> t.len() == 0,
            forall|t: Seq<char>| r.postings(t) == Map::<Seq<char>, u64>::empty(),
    {
        let root = IndexItem::new();
        let r = InvertedIndex { root };
        proof {
            assert forall|t: Seq<char>| r.nodes().contains(t) <==> t.len() == 0 by {
                if t.len() > 0 {
                    assert(lookup_child(r.root.children@, t[0]) is None);
                }
            }
            assert forall|t: Seq<char>| r.postings(t) == Map::<Seq<char>, u64>::empty() by {
                if t.len() > 0 {
                    assert(lookup_child(r.root.children@, t[0]) is None);
                }
            }
        }
        r
    }

    /// Stores `term_freq` for `(doc_ref, token)`. Every prefix of the
    /// token becomes a known path; the token's postings gain or overwrite
    /// the one entry; nothing else changes. An empty token changes
    /// nothing.
    pub fn add_token(&mut self, doc_ref: &str, token: &str, term_freq: u64)
        requires
            old(self).wf(),
        ensures
            final(self).wf(),
            final(self).nodes() == old(self).nodes().union(prefix_set(token@)),
            token@.len() > 0 ==> final(self).postings(token@) == old(self).postings(
                token@,
            ).insert(doc_ref@, term_freq),
            forall|s: Seq<char>|
                s != token@ ==> final(self).postings(s) == old(self).postings(s),
            token@.len() == 0 ==> final(self).postings(token@) == old(self).postings(token@),
    {
        let l = token.unicode_len();
        if l == 0 {
            proof {
                lemma_prefix_basics(Seq::<char>::empty());
                assert(token@ =~= Seq::<char>::empty());
                assert(self.root.node_at(Seq::<char>::empty()) == Some(self.root));
                assert(self.nodes().contains(Seq::<char>::empty()));
                assert(self.nodes().union(prefix_set(token@)) =~= self.nodes());
            }
            return ;
        }
        let owned = doc_ref.to_owned();
        proof {
            assert(token@.skip(0) =~= token@);
        }
        self.root.add_from(&owned, token, 0, term_freq);
    }

    /// Whether the token is a known path: true exactly for the prefixes
    /// (the whole token included) of tokens added so far, and for the
    /// empty token. Postings emptied by removal do not make this false.
    pub fn has_token(&self, token: &str) -> (r: bool)
        requires
            self.wf(),
        ensures
            r == self.nodes().contains(token@),
    {
        match self.root.get_node(token) {
            Some(_) => true,
            None => false,
        }
    }

    /// Drops the posting for `(doc_ref, token)` if it exists. No node or
    /// edge is removed, and no other posting changes; a missing path or a
    /// missing document reference makes this a no-op.
    pub fn remove_token(&mut self, doc_ref: &str, token: &str)
        requires
            old(self).wf(),
        ensures
            final(self).wf(),
            final(self).nodes() == old(self).nodes(),
            final(self).postings(token@) == old(self).postings(token@).remove(doc_ref@),
            forall|s: Seq<char>|
                s != token@ ==> final(self).postings(s) == old(self).postings(s),
    {
        let l = token.unicode_len();
        if l == 0 {
            proof {
                assert(token@ =~= Seq::<char>::empty());
                assert(self.root.node_at(Seq::<char>::empty()) == Some(self.root));
                assert(self.root.docs@.len() == 0);
                assert(self.postings(token@).remove(doc_ref@) =~= self.postings(token@));
            }
            return ;
        }
        let owned = doc_ref.to_owned();
        proof {
            assert(token@.skip(0) =~= token@);
        }
        self.root.remove_from(&owned, token, 0);
    }

    /// The postings of a token as owned pairs, or nothing when the token
    /// is not a known path. A known path with emptied postings gives an
    /// empty vector, and the empty token gives the root's empty postings.
    pub fn get_docs(&self, token: &str) -> (r: Option<Vec<(String, u64)>>)
        requires
            self.wf(),
        ensures
            r is Some <==> self.nodes().contains(token@),
            match r {
                Some(v) => pair_keys_unique(v@) && pair_map(v@) == self.postings(token@)
                    && v@.len() == self.postings(token@).dom().len(),
                None => true,
            },
    {
        match self.root.get_node(token) {
            Some(node) => {
                let n = node.docs.len();
                let mut out: Vec<(String, u64)> = Vec::new();
                let mut i: usize = 0;
                while i < n
                    invariant
                        n == node.docs@.len(),
                        i <= n,
                        out@.len() == i,
                        forall|k: int|
                            0 <= k < i ==> (#[trigger] out@[k]).0@ == node.docs@[k].0@
                                && out@[k].1 == node.docs@[k].1.term_freq,
                    decreases n - i,
                {
                    out.push((node.docs[i].0.clone(), node.docs[i].1.term_freq));
                    i += 1;
                }
                proof {
                    lemma_pair_map_matches(out@, node.docs@);
                    lemma_doc_map_len(node.docs@);
                }
                Some(out)
            },
            None => None,
        }
    }

    /// The stored weight for `(doc_ref, token)`, or 0 when the token has
    /// no node or the document reference no posting there.
    pub fn get_term_frequency(&self, doc_ref: &str, token: &str) -> (r: u64)
        requires
            self.wf(),
        ensures
            r == tf_of(self.postings(token@), doc_ref@),
    {
        match self.root.get_node(token) {
            Some(node) => {
                let owned = doc_ref.to_owned();
                match find_doc(&node.docs, &owned) {
                    Some(k) => {
                        proof {
                            lemma_doc_map_index(node.docs@, k as int);
                        }
                        node.docs[k].1.term_freq
                    },
                    None => 0,
                }
            },
            None => 0,
        }
    }

    /// The number of distinct documents holding the token: the node's
    /// incrementally maintained counter, or 0 when the token has no node.
    pub fn get_doc_frequency(&self, token: &str) -> (r: u64)
        requires
            self.wf(),
        ensures
            r == self.postings(token@).dom().len(),
    {
        match self.root.get_node(token) {
            Some(node) => {
                proof {
                    lemma_doc_map_len(node.docs@);
                }
                node.doc_freq
            },
            None => {
                proof {
                    assert(Map::<Seq<char>, u64>::empty().dom() =~= Set::<Seq<char>>::empty());
                }
                0
            },
        }
    }
}

} // verus!
