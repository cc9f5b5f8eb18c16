//! The index's laws, stated over the model that the public contracts
//! speak of: the set of known paths (`nodes`) and the postings map at
//! each path (`postings`). Each law combines with the `ensures` of the
//! operations, which describe every call as a set union, a map insert or
//! a map remove on that model.

use vstd::prelude::*;

use crate::inverted_index::InvertedIndex;
use crate::node::lemma_prefix_basics;
use crate::node::prefix_set;
use crate::node::tf_of;

verus! {

/// After an insertion, the token itself is a known path and its posting
/// for the inserted document holds the inserted weight: `add_token`
/// turns the known paths into `nodes.union(prefix_set(t))` and the
/// token's postings into `m.insert(d, f)`, so `has_token(t)` is true and
/// `get_term_frequency(d, t)` returns `f`.
pub proof fn lemma_added_token_present(
    nodes: Set<Seq<char>>,
    m: Map<Seq<char>, u64>,
    t: Seq<char>,
    d: Seq<char>,
    f: u64,
)
    ensures
        nodes.union(prefix_set(t)).contains(t),
        tf_of(m.insert(d, f), d) == f,
{
    lemma_prefix_basics(t);
}

/// After an insertion, every prefix of the inserted token, the empty
/// prefix included, is a known path.
pub proof fn lemma_prefixes_present(nodes: Set<Seq<char>>, t: Seq<char>, p: Seq<char>)
    requires
        p.is_prefix_of(t),
    ensures
        nodes.union(prefix_set(t)).contains(p),
{
}

/// An insertion makes no path known beyond the prefixes of the inserted
/// token: a token that was no known path and is not a prefix of the
/// inserted one stays unknown, so `has_token` stays false for it.
pub proof fn lemma_non_prefix_absent(nodes: Set<Seq<char>>, t: Seq<char>, s: Seq<char>)
    requires
        !nodes.contains(s),
        !s.is_prefix_of(t),
    ensures
        !nodes.union(prefix_set(t)).contains(s),
{
}

/// Re-inserting a posting for the same document overwrites the weight
/// and keeps the set of posted documents, hence the document frequency,
/// unchanged.
pub proof fn lemma_readd_overwrites(m: Map<Seq<char>, u64>, d: Seq<char>, f1: u64, f2: u64)
    ensures
        m.insert(d, f1).insert(d, f2) == m.insert(d, f2),
        m.insert(d, f1).insert(d, f2).dom() == m.insert(d, f1).dom(),
        tf_of(m.insert(d, f1).insert(d, f2), d) == f2,
{
    assert(m.insert(d, f1).insert(d, f2) =~= m.insert(d, f2));
    assert(m.insert(d, f1).insert(d, f2).dom() =~= m.insert(d, f1).dom());
}

/// Posting one token under two distinct documents of a fresh index gives
/// it document frequency 2.
pub proof fn lemma_two_documents(d1: Seq<char>, d2: Seq<char>, f1: u64, f2: u64)
    requires
        d1 != d2,
    ensures
        Map::<Seq<char>, u64>::empty().insert(d1, f1).insert(d2, f2).dom().len() == 2,
{
    broadcast use vstd::set::group_set_axioms;

    let dom2 = Map::<Seq<char>, u64>::empty().insert(d1, f1).insert(d2, f2).dom();
    assert(dom2 =~= Set::<Seq<char>>::empty().insert(d1).insert(d2));
    assert(Set::<Seq<char>>::empty().insert(d1).len() == 1);
    assert(Set::<Seq<char>>::empty().insert(d1).insert(d2).len() == 2);
}

/// Removing a posting that an insertion put in place zeroes the read
/// weight, takes the document out of the postings, and lowers the number
/// of posted documents by one. The token stays a known path throughout:
/// `remove_token` leaves `nodes` unchanged.
pub proof fn lemma_remove_document(m: Map<Seq<char>, u64>, d: Seq<char>, f: u64)
    requires
        m.dom().finite(),
    ensures
        tf_of(m.insert(d, f).remove(d), d) == 0,
        !m.insert(d, f).remove(d).contains_key(d),
        m.insert(d, f).remove(d).dom().len() == m.insert(d, f).dom().len() - 1,
{
    broadcast use vstd::set::group_set_axioms;

    assert(m.insert(d, f).dom() =~= m.dom().insert(d));
    assert(m.insert(d, f).remove(d).dom() =~= m.insert(d, f).dom().remove(d));
}

/// Removing a posting that was never made changes nothing: the postings
/// map with the absent key removed is the map itself.
pub proof fn lemma_remove_absent_noop(m: Map<Seq<char>, u64>, d: Seq<char>)
    requires
        !m.contains_key(d),
    ensures
        m.remove(d) == m,
{
    assert(m.remove(d) =~= m);
}

/// The empty token is always a known path with empty postings: lookups
/// on it find the root, never "not found", and see no documents.
pub proof fn lemma_empty_token(idx: InvertedIndex)
    requires
        idx.wf(),
    ensures
        idx.nodes().contains(Seq::<char>::empty()),
        idx.postings(Seq::<char>::empty()) == Map::<Seq<char>, u64>::empty(),
{
    assert(idx.root.node_at(Seq::<char>::empty()) == Some(idx.root));
}

} // verus!
