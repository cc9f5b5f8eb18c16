//! The trie node: one edge-step of a token path, with its postings and
//! child edges, and the spec-level model of the subtree below it.

use vstd::prelude::*;
use vstd::pervasive::VecAdditionalExecFns;
use vstd::string::StrSliceExecFns;

verus! {

/// Term weight of a token within one document, carried as an opaque 64-bit
/// payload and stored exactly as supplied. Callers that work in floating
/// point pass the bit pattern of their value and read it back unchanged.
#[derive(Debug, Clone, Copy, PartialEq, Eq, Structural)]
pub struct TermFrequency {
    pub term_freq: u64,
}

/// One trie node. `docs` maps document references to stored weights,
/// `doc_freq` counts the distinct document references in `docs`, and
/// `children` maps the next codepoint to the child node. Both mappings are
/// association vectors whose keys are unique.
#[derive(Debug)]
pub struct IndexItem {
    pub docs: Vec<(String, TermFrequency)>,
    pub doc_freq: u64,
    pub children: Vec<(char, IndexItem)>,
}

/// No two postings entries share a document reference.
pub open spec fn doc_keys_unique(s: Seq<(String, TermFrequency)>) -> bool {
    forall|i: int, j: int| 0 <= i < j < s.len() ==> s[i].0@ != s[j].0@
}

/// No two child edges share a codepoint.
pub open spec fn child_keys_unique(s: Seq<(char, IndexItem)>) -> bool {
    forall|i: int, j: int| 0 <= i < j < s.len() ==> s[i].0 != s[j].0
}

/// The postings of one node as a map from document reference to weight.
pub open spec fn doc_map(s: Seq<(String, TermFrequency)>) -> Map<Seq<char>, u64>
    decreases s.len(),
{
    if s.len() == 0 {
        Map::empty()
    } else {
        doc_map(s.drop_last()).insert(s.last().0@, s.last().1.term_freq)
    }
}

/// The child node reached along the edge labelled `c`, if any.
pub open spec fn lookup_child(s: Seq<(char, IndexItem)>, c: char) -> Option<IndexItem>
    decreases s.len(),
{
    if s.len() == 0 {
        None
    } else if s[0].0 == c {
        Some(s[0].1)
    } else {
        lookup_child(s.skip(1), c)
    }
}

impl IndexItem {
    /// The node reached from this one along the given path of codepoints.
    pub open spec fn node_at(self, t: Seq<char>) -> Option<IndexItem>
        decreases t.len(),
    {
        if t.len() == 0 {
            Some(self)
        } else {
            match lookup_child(self.children@, t[0]) {
                Some(child) => child.node_at(t.skip(1)),
                None => None,
            }
        }
    }

    /// All paths below this node that lead to a node, the empty path included.
    pub open spec fn paths(self) -> Set<Seq<char>> {
        Set::new(|t: Seq<char>| self.node_at(t) is Some)
    }

    /// The postings stored at the end of a path; the empty map where the
    /// path leads to no node.
    pub open spec fn post_at(self, t: Seq<char>) -> Map<Seq<char>, u64> {
        match self.node_at(t) {
            Some(n) => doc_map(n.docs@),
            None => Map::empty(),
        }
    }

    /// Well-formedness of this node alone: unique keys in both mappings,
    /// and the distinct-document counter equal to the number of postings.
    pub open spec fn local_inv(self) -> bool {
        &&& doc_keys_unique(self.docs@)
        &&& child_keys_unique(self.children@)
        &&& self.doc_freq == self.docs@.len()
    }

    /// Well-formedness of the whole subtree.
    pub open spec fn inv(self) -> bool
        decreases self,
    {
        &&& self.local_inv()
        &&& forall|i: int|
            0 <= i < self.children@.len() ==> (#[trigger] self.children@[i]).1.inv()
    }

    /// A fresh node: no postings, no children.
    pub fn new() -> (r: IndexItem)
        ensures
            r.inv(),
            r.docs@ =~= Seq::<(String, TermFrequency)>::empty(),
            r.children@ =~= Seq::<(char, IndexItem)>::empty(),
    {
        IndexItem { docs: Vec::new(), doc_freq: 0, children: Vec::new() }
    }
}

/// The set of all prefixes of a token, the empty prefix and the token
/// itself included.
pub open spec fn prefix_set(t: Seq<char>) -> Set<Seq<char>> {
    Set::new(|p: Seq<char>| p.is_prefix_of(t))
}

/// A stored weight read out of a postings map, with 0 for an absent key.
pub open spec fn tf_of(m: Map<Seq<char>, u64>, d: Seq<char>) -> u64 {
    if m.contains_key(d) {
        m[d]
    } else {
        0
    }
}

/// A document reference is a key of `doc_map(s)` exactly when some entry
/// of `s` carries it.
pub proof fn lemma_doc_map_contains(s: Seq<(String, TermFrequency)>, d: Seq<char>)
    ensures
        doc_map(s).contains_key(d) <==> exists|i: int| 0 <= i < s.len() && s[i].0@ == d,
    decreases s.len(),
{
    if s.len() == 0 {
    } else {
        lemma_doc_map_contains(s.drop_last(), d);
        if doc_map(s).contains_key(d) {
            if s.last().0@ != d {
                let i = choose|i: int| 0 <= i < s.drop_last().len() && s.drop_last()[i].0@ == d;
                assert(s[i].0@ == d);
            }
        }
        if exists|i: int| 0 <= i < s.len() && s[i].0@ == d {
            let i = choose|i: int| 0 <= i < s.len() && s[i].0@ == d;
            if i < s.len() - 1 {
                assert(s.drop_last()[i].0@ == d);
            }
        }
    }
}

/// With unique keys, the postings map has exactly one entry per element.
pub proof fn lemma_doc_map_len(s: Seq<(String, TermFrequency)>)
    requires
        doc_keys_unique(s),
    ensures
        doc_map(s).dom().finite(),
        doc_map(s).dom().len() == s.len(),
    decreases s.len(),
{
    if s.len() == 0 {
        assert(doc_map(s).dom() =~= Set::<Seq<char>>::empty());
    } else {
        assert(doc_keys_unique(s.drop_last()));
        lemma_doc_map_len(s.drop_last());
        lemma_doc_map_contains(s.drop_last(), s.last().0@);
        assert(forall|i: int| 0 <= i < s.drop_last().len() ==> s.drop_last()[i] == s[i]);
        assert(!doc_map(s.drop_last()).contains_key(s.last().0@));
        assert(doc_map(s).dom() =~= doc_map(s.drop_last()).dom().insert(s.last().0@));
    }
}

/// With unique keys, the entry at an index supplies the mapped weight.
pub proof fn lemma_doc_map_index(s: Seq<(String, TermFrequency)>, j: int)
    requires
        doc_keys_unique(s),
        0 <= j < s.len(),
    ensures
        doc_map(s).contains_key(s[j].0@),
        doc_map(s)[s[j].0@] == s[j].1.term_freq,
    decreases s.len(),
{
    if j == s.len() - 1 {
    } else {
        assert(doc_keys_unique(s.drop_last()));
        assert(s.drop_last()[j] == s[j]);
        lemma_doc_map_index(s.drop_last(), j);
        assert(s.last().0@ != s[j].0@);
    }
}

/// Overwriting one entry, keeping its key, updates exactly that key.
pub proof fn lemma_doc_map_update(
    s: Seq<(String, TermFrequency)>,
    j: int,
    p: (String, TermFrequency),
)
    requires
        doc_keys_unique(s),
        0 <= j < s.len(),
        p.0@ == s[j].0@,
    ensures
        doc_keys_unique(s.update(j, p)),
        doc_map(s.update(j, p)) == doc_map(s).insert(p.0@, p.1.term_freq),
    decreases s.len(),
{
    let s2 = s.update(j, p);
    assert(forall|i: int| 0 <= i < s.len() ==> s2[i].0@ == s[i].0@);
    if j == s.len() - 1 {
        assert(s2.drop_last() =~= s.drop_last());
        assert(s2.last() == p);
        assert(doc_map(s2) == doc_map(s.drop_last()).insert(p.0@, p.1.term_freq));
        assert(doc_map(s).insert(p.0@, p.1.term_freq) =~= doc_map(s.drop_last()).insert(
            p.0@,
            p.1.term_freq,
        ));
    } else {
        assert(doc_keys_unique(s.drop_last()));
        assert(s.drop_last()[j] == s[j]);
        lemma_doc_map_update(s.drop_last(), j, p);
        assert(s2.drop_last() =~= s.drop_last().update(j, p));
        assert(s2.last() == s.last());
        assert(s.last().0@ != p.0@);
        assert(doc_map(s2) == doc_map(s.drop_last()).insert(p.0@, p.1.term_freq).insert(
            s.last().0@,
            s.last().1.term_freq,
        ));
        assert(doc_map(s2) =~= doc_map(s).insert(p.0@, p.1.term_freq));
    }
}

/// Appending an entry with a fresh key extends the postings map by that key.
pub proof fn lemma_doc_map_push(s: Seq<(String, TermFrequency)>, p: (String, TermFrequency))
    requires
        doc_keys_unique(s),
        forall|i: int| 0 <= i < s.len() ==> s[i].0@ != p.0@,
    ensures
        doc_keys_unique(s.push(p)),
        doc_map(s.push(p)) == doc_map(s).insert(p.0@, p.1.term_freq),
{
    assert(s.push(p).drop_last() =~= s);
    assert(s.push(p).last() == p);
    assert(forall|i: int| 0 <= i < s.len() ==> s.push(p)[i] == s[i]);
}

/// Removing one entry removes exactly its key from the postings map.
pub proof fn lemma_doc_map_remove(s: Seq<(String, TermFrequency)>, j: int)
    requires
        doc_keys_unique(s),
        0 <= j < s.len(),
    ensures
        doc_keys_unique(s.remove(j)),
        doc_map(s.remove(j)) == doc_map(s).remove(s[j].0@),
    decreases s.len(),
{
    let s2 = s.remove(j);
    assert(forall|i: int| 0 <= i < s2.len() ==> s2[i] == (if i < j {
        s[i]
    } else {
        s[i + 1]
    }));
    if j == s.len() - 1 {
        assert(s2 =~= s.drop_last());
        lemma_doc_map_contains(s.drop_last(), s[j].0@);
        assert(forall|i: int| 0 <= i < s.drop_last().len() ==> s.drop_last()[i] == s[i]);
        assert(!doc_map(s.drop_last()).contains_key(s[j].0@));
        assert(doc_map(s2) =~= doc_map(s).remove(s[j].0@));
    } else {
        assert(doc_keys_unique(s.drop_last()));
        assert(s.drop_last()[j] == s[j]);
        lemma_doc_map_remove(s.drop_last(), j);
        assert(s2.drop_last() =~= s.drop_last().remove(j));
        assert(s2.last() == s.last());
        assert(s.last().0@ != s[j].0@);
        assert(doc_map(s2) == doc_map(s.drop_last()).remove(s[j].0@).insert(
            s.last().0@,
            s.last().1.term_freq,
        ));
        assert(doc_map(s2) =~= doc_map(s).remove(s[j].0@));
    }
}

/// The child lookup fails exactly when no edge carries the codepoint.
pub proof fn lemma_lookup_child_none_iff(s: Seq<(char, IndexItem)>, c: char)
    ensures
        lookup_child(s, c) is None <==> (forall|i: int| 0 <= i < s.len() ==> s[i].0 != c),
    decreases s.len(),
{
    if s.len() == 0 {
    } else {
        lemma_lookup_child_none_iff(s.skip(1), c);
        assert(forall|i: int| 1 <= i < s.len() ==> #[trigger] s[i] == s.skip(1)[i - 1]);
    }
}

/// With unique keys, an edge found at an index is the looked-up child.
pub proof fn lemma_lookup_child_at(s: Seq<(char, IndexItem)>, c: char, j: int)
    requires
        child_keys_unique(s),
        0 <= j < s.len(),
        s[j].0 == c,
    ensures
        lookup_child(s, c) == Some(s[j].1),
    decreases s.len(),
{
    if j == 0 {
    } else {
        assert(s[0].0 != c);
        assert(child_keys_unique(s.skip(1)));
        assert(s.skip(1)[j - 1] == s[j]);
        lemma_lookup_child_at(s.skip(1), c, j - 1);
    }
}

/// A successful child lookup returns one of the stored edges.
pub proof fn lemma_lookup_child_is_element(s: Seq<(char, IndexItem)>, c: char)
    ensures
        match lookup_child(s, c) {
            Some(x) => exists|i: int| 0 <= i < s.len() && s[i] == (c, x),
            None => true,
        },
    decreases s.len(),
{
    if s.len() == 0 {
    } else if s[0].0 == c {
        assert(s[0] == (c, s[0].1));
    } else {
        lemma_lookup_child_is_element(s.skip(1), c);
        if lookup_child(s, c) is Some {
            let x = lookup_child(s, c)->Some_0;
            let i = choose|i: int| 0 <= i < s.skip(1).len() && s.skip(1)[i] == (c, x);
            assert(s[i + 1] == (c, x));
        }
    }
}

/// Replacing the child behind one edge changes no other lookup.
pub proof fn lemma_lookup_child_update(s: Seq<(char, IndexItem)>, j: int, p: (char, IndexItem))
    requires
        child_keys_unique(s),
        0 <= j < s.len(),
        p.0 == s[j].0,
    ensures
        child_keys_unique(s.update(j, p)),
        lookup_child(s.update(j, p), p.0) == Some(p.1),
        forall|c2: char| c2 != p.0 ==> lookup_child(s.update(j, p), c2) == lookup_child(s, c2),
{
    let s2 = s.update(j, p);
    assert(forall|i: int| 0 <= i < s.len() ==> s2[i].0 == s[i].0);
    lemma_lookup_child_at(s2, p.0, j);
    assert forall|c2: char| c2 != p.0 implies lookup_child(s2, c2) == lookup_child(s, c2) by {
        lemma_lookup_child_none_iff(s, c2);
        lemma_lookup_child_none_iff(s2, c2);
        if lookup_child(s, c2) is Some {
            lemma_lookup_child_is_element(s, c2);
            let i = choose|i: int|
                0 <= i < s.len() && s[i] == (c2, lookup_child(s, c2)->Some_0);
            assert(i != j);
            lemma_lookup_child_at(s, c2, i);
            lemma_lookup_child_at(s2, c2, i);
        } else {
            assert(forall|i: int| 0 <= i < s2.len() ==> s2[i].0 != c2);
        }
    }
}

/// Appending an edge with a fresh codepoint changes no other lookup.
pub proof fn lemma_lookup_child_push(s: Seq<(char, IndexItem)>, p: (char, IndexItem))
    requires
        child_keys_unique(s),
        lookup_child(s, p.0) is None,
    ensures
        child_keys_unique(s.push(p)),
        lookup_child(s.push(p), p.0) == Some(p.1),
        forall|c2: char| c2 != p.0 ==> lookup_child(s.push(p), c2) == lookup_child(s, c2),
{
    let s2 = s.push(p);
    lemma_lookup_child_none_iff(s, p.0);
    assert(forall|i: int| 0 <= i < s.len() ==> s2[i] == s[i]);
    assert(child_keys_unique(s2));
    lemma_lookup_child_at(s2, p.0, s.len() as int);
    assert forall|c2: char| c2 != p.0 implies lookup_child(s2, c2) == lookup_child(s, c2) by {
        lemma_lookup_child_none_iff(s, c2);
        lemma_lookup_child_none_iff(s2, c2);
        if lookup_child(s, c2) is Some {
            lemma_lookup_child_is_element(s, c2);
            let i = choose|i: int|
                0 <= i < s.len() && s[i] == (c2, lookup_child(s, c2)->Some_0);
            lemma_lookup_child_at(s, c2, i);
            lemma_lookup_child_at(s2, c2, i);
        } else {
            assert(forall|i: int| 0 <= i < s2.len() ==> s2[i].0 != c2);
        }
    }
}

/// Walking a concatenated path is walking its halves in turn.
pub proof fn lemma_node_at_concat(n: IndexItem, a: Seq<char>, b: Seq<char>)
    ensures
        n.node_at(a + b) == match n.node_at(a) {
            Some(m) => m.node_at(b),
            None => None::<IndexItem>,
        },
    decreases a.len(),
{
    if a.len() == 0 {
        assert(a + b =~= b);
    } else {
        assert((a + b)[0] == a[0]);
        assert((a + b).len() > 0);
        match lookup_child(n.children@, a[0]) {
            Some(child) => {
                assert((a + b).skip(1) =~= a.skip(1) + b);
                lemma_node_at_concat(child, a.skip(1), b);
            },
            None => {},
        }
    }
}

/// Replacing the child behind one edge: how every walk from the parent
/// relates to walks from the old and the new child.
pub proof fn lemma_child_surgery(
    n1: IndexItem,
    n2: IndexItem,
    j: int,
    c: char,
    ch1: IndexItem,
    ch2: IndexItem,
)
    requires
        child_keys_unique(n1.children@),
        0 <= j < n1.children@.len(),
        n1.children@[j].0 == c,
        n1.children@[j].1 == ch1,
        n2.children@ == n1.children@.update(j, (c, ch2)),
    ensures
        child_keys_unique(n2.children@),
        forall|s: Seq<char>|
            s.len() > 0 && s[0] == c ==> n1.node_at(s) == ch1.node_at(s.skip(1))
                && n2.node_at(s) == ch2.node_at(s.skip(1)),
        forall|s: Seq<char>| s.len() > 0 && s[0] != c ==> n2.node_at(s) == n1.node_at(s),
{
    lemma_lookup_child_update(n1.children@, j, (c, ch2));
    lemma_lookup_child_at(n1.children@, c, j);
    assert forall|s: Seq<char>| s.len() > 0 && s[0] == c implies n1.node_at(s) == ch1.node_at(
        s.skip(1),
    ) && n2.node_at(s) == ch2.node_at(s.skip(1)) by {
        assert(lookup_child(n1.children@, s[0]) == Some(ch1));
        assert(lookup_child(n2.children@, s[0]) == Some(ch2));
    }
    assert forall|s: Seq<char>| s.len() > 0 && s[0] != c implies n2.node_at(s) == n1.node_at(
        s,
    ) by {
        assert(lookup_child(n2.children@, s[0]) == lookup_child(n1.children@, s[0]));
    }
}

/// Two nodes with the same child edges reach the same nodes along every
/// non-empty path, and have the same paths.
pub proof fn lemma_same_children(ch1: IndexItem, ch2: IndexItem)
    requires
        ch2.children@ == ch1.children@,
    ensures
        forall|s: Seq<char>| s.len() > 0 ==> ch2.node_at(s) == ch1.node_at(s),
        ch2.paths() == ch1.paths(),
{
    assert forall|s: Seq<char>| s.len() > 0 implies ch2.node_at(s) == ch1.node_at(s) by {
        assert(lookup_child(ch2.children@, s[0]) == lookup_child(ch1.children@, s[0]));
    }
    assert(ch2.paths() =~= ch1.paths());
}

/// The empty path is a prefix of anything; a prefix of the empty path is
/// empty; a token is a prefix of itself.
pub proof fn lemma_prefix_basics(u: Seq<char>)
    ensures
        Seq::<char>::empty().is_prefix_of(u),
        u.is_prefix_of(u),
        forall|p: Seq<char>| p.is_prefix_of(Seq::<char>::empty()) ==> p == Seq::<char>::empty(),
{
    assert(Seq::<char>::empty() =~= u.subrange(0, 0));
    assert(u =~= u.subrange(0, u.len() as int));
    assert forall|p: Seq<char>| p.is_prefix_of(Seq::<char>::empty()) implies p
        == Seq::<char>::empty() by {
        assert(p =~= Seq::<char>::empty());
    }
}

/// A non-empty prefix of a non-empty token starts with the token's first
/// codepoint and continues with a prefix of the rest.
pub proof fn lemma_prefix_cons(s: Seq<char>, u: Seq<char>)
    requires
        s.len() > 0,
        u.len() > 0,
    ensures
        s.is_prefix_of(u) <==> (s[0] == u[0] && s.skip(1).is_prefix_of(u.skip(1))),
{
    if s.is_prefix_of(u) {
        assert(s =~= u.subrange(0, s.len() as int));
        assert(s.skip(1) =~= u.skip(1).subrange(0, s.len() - 1));
    }
    if s[0] == u[0] && s.skip(1).is_prefix_of(u.skip(1)) {
        assert(s.skip(1) =~= u.skip(1).subrange(0, s.len() - 1));
        assert(s =~= u.subrange(0, s.len() as int)) by {
            assert(forall|i: int|
                1 <= i < s.len() ==> s[i] == s.skip(1)[i - 1] && u.subrange(
                    0,
                    s.len() as int,
                )[i] == u.skip(1).subrange(0, s.len() - 1)[i - 1]);
        }
    }
}

/// Two non-empty paths with equal heads and equal tails are equal.
pub proof fn lemma_cons_eq(s: Seq<char>, u: Seq<char>)
    requires
        s.len() > 0,
        u.len() > 0,
        s[0] == u[0],
        s.skip(1) == u.skip(1),
    ensures
        s == u,
{
    assert(s.len() == s.skip(1).len() + 1);
    assert(u.len() == u.skip(1).len() + 1);
    assert forall|i: int| 0 <= i < s.len() implies s[i] == u[i] by {
        if i >= 1 {
            assert(s[i] == s.skip(1)[i - 1]);
            assert(u[i] == u.skip(1)[i - 1]);
        }
    }
    assert(s =~= u);
}

/// Lifting an insertion one level up the trie: if the child behind the
/// first codepoint of `u` gained exactly the prefixes of the rest of `u`
/// and the one posting, the parent gained exactly the prefixes of `u` and
/// that posting.
pub proof fn lemma_lift_add(
    n1: IndexItem,
    n2: IndexItem,
    c: char,
    ch1: IndexItem,
    ch2: IndexItem,
    u: Seq<char>,
    d: Seq<char>,
    f: u64,
)
    requires
        u.len() > 0,
        u[0] == c,
        forall|s: Seq<char>|
            s.len() > 0 && s[0] == c ==> n1.node_at(s) == ch1.node_at(s.skip(1))
                && n2.node_at(s) == ch2.node_at(s.skip(1)),
        forall|s: Seq<char>| s.len() > 0 && s[0] != c ==> n2.node_at(s) == n1.node_at(s),
        n2.docs@ == n1.docs@,
        ch2.paths() == ch1.paths().union(prefix_set(u.skip(1))),
        ch2.post_at(u.skip(1)) == ch1.post_at(u.skip(1)).insert(d, f),
        forall|s: Seq<char>| s != u.skip(1) ==> ch2.post_at(s) == ch1.post_at(s),
    ensures
        n2.paths() == n1.paths().union(prefix_set(u)),
        n2.post_at(u) == n1.post_at(u).insert(d, f),
        forall|s: Seq<char>| s != u ==> n2.post_at(s) == n1.post_at(s),
{
    lemma_prefix_basics(u);
    assert forall|s: Seq<char>|
        #![trigger n2.paths().contains(s)]
        n2.paths().contains(s) <==> (n1.paths().contains(s) || prefix_set(u).contains(s)) by {
        if s.len() == 0 {
            assert(n2.node_at(s) == Some(n2));
            assert(s.is_prefix_of(u)) by { lemma_prefix_basics(u) }
            assert(s =~= Seq::<char>::empty());
            assert(Seq::<char>::empty().is_prefix_of(u));
        } else if s[0] == c {
            lemma_prefix_cons(s, u);
            assert(n2.node_at(s) == ch2.node_at(s.skip(1)));
            assert(n1.node_at(s) == ch1.node_at(s.skip(1)));
            assert(ch2.paths().contains(s.skip(1)) <==> (ch1.paths().contains(s.skip(1))
                || prefix_set(u.skip(1)).contains(s.skip(1))));
        } else {
            lemma_prefix_cons(s, u);
        }
    }
    assert(n2.paths() =~= n1.paths().union(prefix_set(u)));
    assert(n2.node_at(u) == ch2.node_at(u.skip(1)));
    assert(n1.node_at(u) == ch1.node_at(u.skip(1)));
    assert(n2.post_at(u) == ch2.post_at(u.skip(1)));
    assert(n1.post_at(u) == ch1.post_at(u.skip(1)));
    assert forall|s: Seq<char>| s != u implies n2.post_at(s) == n1.post_at(s) by {
        if s.len() == 0 {
            assert(n2.node_at(s) == Some(n2));
            assert(n1.node_at(s) == Some(n1));
        } else if s[0] == c {
            if s.skip(1) == u.skip(1) {
                lemma_cons_eq(s, u);
            }
            assert(n2.node_at(s) == ch2.node_at(s.skip(1)));
            assert(n1.node_at(s) == ch1.node_at(s.skip(1)));
            assert(ch2.post_at(s.skip(1)) == ch1.post_at(s.skip(1)));
        } else {
        }
    }
}

/// Lifting a removal one level up the trie: the paths stay, and only the
/// posting named by `u` and `d` goes.
pub proof fn lemma_lift_remove(
    n1: IndexItem,
    n2: IndexItem,
    c: char,
    ch1: IndexItem,
    ch2: IndexItem,
    u: Seq<char>,
    d: Seq<char>,
)
    requires
        u.len() > 0,
        u[0] == c,
        forall|s: Seq<char>|
            s.len() > 0 && s[0] == c ==> n1.node_at(s) == ch1.node_at(s.skip(1))
                && n2.node_at(s) == ch2.node_at(s.skip(1)),
        forall|s: Seq<char>| s.len() > 0 && s[0] != c ==> n2.node_at(s) == n1.node_at(s),
        n2.docs@ == n1.docs@,
        ch2.paths() == ch1.paths(),
        ch2.post_at(u.skip(1)) == ch1.post_at(u.skip(1)).remove(d),
        forall|s: Seq<char>| s != u.skip(1) ==> ch2.post_at(s) == ch1.post_at(s),
    ensures
        n2.paths() == n1.paths(),
        n2.post_at(u) == n1.post_at(u).remove(d),
        forall|s: Seq<char>| s != u ==> n2.post_at(s) == n1.post_at(s),
{
    assert forall|s: Seq<char>|
        #![trigger n2.paths().contains(s)]
        n2.paths().contains(s) <==> n1.paths().contains(s) by {
        if s.len() == 0 {
            assert(n2.node_at(s) == Some(n2));
            assert(n1.node_at(s) == Some(n1));
        } else if s[0] == c {
            assert(n2.node_at(s) == ch2.node_at(s.skip(1)));
            assert(n1.node_at(s) == ch1.node_at(s.skip(1)));
            assert(ch2.paths().contains(s.skip(1)) == (ch2.node_at(s.skip(1)) is Some));
            assert(ch1.paths().contains(s.skip(1)) == (ch1.node_at(s.skip(1)) is Some));
            assert(ch2.paths().contains(s.skip(1)) <==> ch1.paths().contains(s.skip(1)));
        } else {
            assert(n2.node_at(s) == n1.node_at(s));
        }
    }
    assert(n2.paths() =~= n1.paths());
    assert(n2.node_at(u) == ch2.node_at(u.skip(1)));
    assert(n1.node_at(u) == ch1.node_at(u.skip(1)));
    assert(n2.post_at(u) == ch2.post_at(u.skip(1)));
    assert(n1.post_at(u) == ch1.post_at(u.skip(1)));
    assert forall|s: Seq<char>| s != u implies n2.post_at(s) == n1.post_at(s) by {
        if s.len() == 0 {
            assert(n2.node_at(s) == Some(n2));
            assert(n1.node_at(s) == Some(n1));
        } else if s[0] == c {
            if s.skip(1) == u.skip(1) {
                lemma_cons_eq(s, u);
            }
            assert(n2.node_at(s) == ch2.node_at(s.skip(1)));
            assert(n1.node_at(s) == ch1.node_at(s.skip(1)));
            assert(ch2.post_at(s.skip(1)) == ch1.post_at(s.skip(1)));
        } else {
        }
    }
}

/// Adding an edge to a fresh, empty child adds exactly that one path and
/// no postings.
pub proof fn lemma_child_push(n1: IndexItem, n2: IndexItem, c: char, ch: IndexItem)
    requires
        child_keys_unique(n1.children@),
        lookup_child(n1.children@, c) is None,
        n2.children@ == n1.children@.push((c, ch)),
        n2.docs@ == n1.docs@,
        ch.docs@.len() == 0,
        ch.children@.len() == 0,
    ensures
        child_keys_unique(n2.children@),
        n2.paths() == n1.paths().insert(seq![c]),
        forall|s: Seq<char>| n2.post_at(s) == n1.post_at(s),
        lookup_child(n2.children@, c) == Some(ch),
{
    lemma_lookup_child_push(n1.children@, (c, ch));
    assert forall|s: Seq<char>| s.len() > 0 implies (n2.node_at(s) == (if s[0] == c {
        ch.node_at(s.skip(1))
    } else {
        n1.node_at(s)
    }) && (s[0] == c ==> n1.node_at(s) is None)) by {
        if s[0] == c {
            assert(lookup_child(n2.children@, c) == Some(ch));
            assert(lookup_child(n1.children@, c) is None);
        } else {
            assert(lookup_child(n2.children@, s[0]) == lookup_child(n1.children@, s[0]));
        }
    }
    assert forall|s: Seq<char>| s.len() > 0 && s[0] == c implies (ch.node_at(s.skip(1)) is Some
        <==> s == seq![c]) by {
        if s.skip(1).len() == 0 {
            assert(s =~= seq![c]);
        } else {
            assert(lookup_child(ch.children@, s.skip(1)[0]) is None);
        }
        if s == seq![c] {
            assert(s.skip(1) =~= Seq::<char>::empty());
        }
    }
    assert(n2.paths() =~= n1.paths().insert(seq![c]));
    assert forall|s: Seq<char>| n2.post_at(s) == n1.post_at(s) by {
        if s.len() == 0 {
        } else if s[0] == c {
            if s == seq![c] {
                assert(s.skip(1) =~= Seq::<char>::empty());
                assert(n2.post_at(s) == doc_map(ch.docs@));
                assert(ch.docs@ =~= Seq::<(String, TermFrequency)>::empty());
                assert(n1.post_at(s) == Map::<Seq<char>, u64>::empty());
            } else {
                assert(ch.node_at(s.skip(1)) is None);
                assert(n1.node_at(s) is None);
            }
        } else {
        }
    }
}

/// The index of the child edge labelled `c`, if one exists.
fn find_child(children: &Vec<(char, IndexItem)>, c: char) -> (r: Option<usize>)
    requires
        child_keys_unique(children@),
    ensures
        match r {
            Some(j) => j < children@.len() && children@[j as int].0 == c && lookup_child(
                children@,
                c,
            ) == Some(children@[j as int].1),
            None => lookup_child(children@, c) is None,
        },
{
    let n = children.len();
    let mut i: usize = 0;
    while i < n
        invariant
            n == children@.len(),
            i <= n,
            child_keys_unique(children@),
            forall|k: int| 0 <= k < i ==> children@[k].0 != c,
        decreases n - i,
    {
        if children[i].0 == c {
            proof {
                lemma_lookup_child_at(children@, c, i as int);
            }
            return Some(i);
        }
        i += 1;
    }
    proof {
        lemma_lookup_child_none_iff(children@, c);
    }
    None
}

/// The index of the postings entry for `doc_ref`, if one exists.
pub(crate) fn find_doc(docs: &Vec<(String, TermFrequency)>, doc_ref: &String) -> (r: Option<usize>)
    requires
        doc_keys_unique(docs@),
    ensures
        match r {
            Some(j) => j < docs@.len() && docs@[j as int].0@ == doc_ref@,
            None => !doc_map(docs@).contains_key(doc_ref@),
        },
{
    let n = docs.len();
    let mut i: usize = 0;
    while i < n
        invariant
            n == docs@.len(),
            i <= n,
            forall|k: int| 0 <= k < i ==> docs@[k].0@ != doc_ref@,
        decreases n - i,
    {
        if docs[i].0.eq(doc_ref) {
            return Some(i);
        }
        i += 1;
    }
    proof {
        lemma_doc_map_contains(docs@, doc_ref@);
    }
    None
}

impl IndexItem {
    /// Walks the remainder of the token starting at codepoint `pos`,
    /// creating missing nodes, and stores the weight at the terminal node.
    /// Exactly the prefixes of the walked remainder join the paths below
    /// this node, and exactly the one posting changes.
    pub(crate) fn add_from(&mut self, doc_ref: &String, token: &str, pos: usize, term_freq: u64)
        requires
            old(self).inv(),
            pos < token@.len(),
        ensures
            final(self).inv(),
            final(self).docs@ == old(self).docs@,
            final(self).paths() == old(self).paths().union(
                prefix_set(token@.skip(pos as int)),
            ),
            final(self).post_at(token@.skip(pos as int)) == old(self).post_at(
                token@.skip(pos as int),
            ).insert(doc_ref@, term_freq),
            forall|s: Seq<char>|
                s != token@.skip(pos as int) ==> final(self).post_at(s) == old(self).post_at(s),
        decreases token@.len() - pos,
    {
        let ghost orig = *old(self);
        let ghost u = token@.skip(pos as int);
        proof {
            assert(u.len() > 0);
            assert(u[0] == token@[pos as int]);
        }
        let c = token.get_char(pos);
        let j: usize = match find_child(&self.children, c) {
            Some(idx) => idx,
            None => {
                let fresh = IndexItem::new();
                let ghost gfresh = fresh;
                self.children.push((c, fresh));
                proof {
                    lemma_child_push(orig, *self, c, gfresh);
                }
                self.children.len() - 1
            },
        };
        let ghost mid = *self;
        proof {
            // Paths and postings of `mid` relative to the starting state,
            // and the facts about the edge at `j`.
            assert(mid.children@[j as int].0 == c);
            assert(child_keys_unique(mid.children@));
            assert(lookup_child(mid.children@, c) == Some(mid.children@[j as int].1)) by {
                lemma_lookup_child_at(mid.children@, c, j as int);
            }
            assert(mid.docs@ == orig.docs@);
            assert(forall|s: Seq<char>| mid.post_at(s) == orig.post_at(s));
            assert(mid.children@[j as int].1.inv()) by {
                if j < orig.children@.len() {
                    assert(orig.children@[j as int].1.inv());
                }
            }
        }
        let mut entry = self.children.remove(j);
        let ghost ch1 = entry.1;
        let l = token.unicode_len();
        if pos + 1 < l {
            entry.1.add_from(doc_ref, token, pos + 1, term_freq);
            proof {
                assert(token@.skip(pos as int + 1) =~= u.skip(1));
            }
        } else {
            proof {
                assert(u.len() == 1);
                assert(u.skip(1) =~= Seq::<char>::empty());
            }
            match find_doc(&entry.1.docs, doc_ref) {
                Some(k) => {
                    let new_pair = (doc_ref.clone(), TermFrequency { term_freq });
                    let ghost gpair = new_pair;
                    entry.1.docs.set(k, new_pair);
                    proof {
                        lemma_doc_map_update(ch1.docs@, k as int, gpair);
                    }
                },
                None => {
                    let new_pair = (doc_ref.clone(), TermFrequency { term_freq });
                    let ghost gpair = new_pair;
                    entry.1.docs.push(new_pair);
                    let n_docs = entry.1.docs.len();
                    proof {
                        lemma_doc_map_contains(ch1.docs@, doc_ref@);
                        lemma_doc_map_push(ch1.docs@, gpair);
                        assert(entry.1.doc_freq + 1 == n_docs);
                    }
                    entry.1.doc_freq = entry.1.doc_freq + 1;
                },
            }
            proof {
                lemma_same_children(ch1, entry.1);
                lemma_prefix_basics(Seq::<char>::empty());
                assert(ch1.node_at(Seq::<char>::empty()) == Some(ch1));
                assert(ch1.paths().contains(Seq::<char>::empty()));
                assert(entry.1.paths() =~= ch1.paths().union(
                    prefix_set(Seq::<char>::empty()),
                ));
                assert(entry.1.post_at(Seq::<char>::empty()) == doc_map(entry.1.docs@));
                assert(entry.1.post_at(Seq::<char>::empty()) == ch1.post_at(
                    Seq::<char>::empty(),
                ).insert(doc_ref@, term_freq));
                assert forall|s: Seq<char>| s != u.skip(1) implies entry.1.post_at(s)
                    == ch1.post_at(s) by {
                    if s.len() == 0 {
                        assert(s =~= Seq::<char>::empty());
                    } else {
                        assert(entry.1.node_at(s) == ch1.node_at(s));
                    }
                }
            }
        }
        let ghost ch2 = entry.1;
        let ghost gentry = entry;
        self.children.insert(j, entry);
        proof {
            assert(gentry.0 == c);
            assert(self.children@ =~= mid.children@.update(j as int, (c, ch2)));
            lemma_child_surgery(mid, *self, j as int, c, ch1, ch2);
            lemma_lift_add(mid, *self, c, ch1, ch2, u, doc_ref@, term_freq);
            // From the deltas relative to `mid` to the deltas relative to
            // the starting state.
            assert(seq![c].is_prefix_of(u)) by {
                lemma_prefix_cons(seq![c], u);
                lemma_prefix_basics(u.skip(1));
                assert(seq![c].skip(1) =~= Seq::<char>::empty());
            }
            assert(self.paths() =~= orig.paths().union(prefix_set(u)));
            assert(mid.post_at(u) == orig.post_at(u));
            // Well-formedness of the result.
            assert(self.local_inv());
            assert forall|i: int| 0 <= i < self.children@.len() implies (#[trigger] self.children@[i]).1.inv() by {
                if i == j {
                    assert(self.children@[i].1 == ch2);
                } else {
                    assert(self.children@[i] == mid.children@[i]);
                    if mid.children@ == orig.children@ {
                        assert(orig.children@[i].1.inv());
                    } else {
                        if i < orig.children@.len() {
                            assert(orig.children@[i].1.inv());
                        }
                    }
                }
            }
        }
    }

    /// Walks the remainder of the token starting at codepoint `pos` without
    /// creating nodes, and drops the posting for `doc_ref` at the terminal
    /// node if both exist. No node or edge is removed, and no other posting
    /// changes.
    pub(crate) fn remove_from(&mut self, doc_ref: &String, token: &str, pos: usize)
        requires
            old(self).inv(),
            pos < token@.len(),
        ensures
            final(self).inv(),
            final(self).docs@ == old(self).docs@,
            final(self).paths() == old(self).paths(),
            final(self).post_at(token@.skip(pos as int)) == old(self).post_at(
                token@.skip(pos as int),
            ).remove(doc_ref@),
            forall|s: Seq<char>|
                s != token@.skip(pos as int) ==> final(self).post_at(s) == old(self).post_at(s),
        decreases token@.len() - pos,
    {
        let ghost orig = *old(self);
        let ghost u = token@.skip(pos as int);
        proof {
            assert(u.len() > 0);
            assert(u[0] == token@[pos as int]);
        }
        let c = token.get_char(pos);
        let j: usize = match find_child(&self.children, c) {
            Some(idx) => idx,
            None => {
                proof {
                    // The path stops here: nothing to remove.
                    assert(orig.node_at(u) is None);
                    assert(orig.post_at(u).remove(doc_ref@) =~= orig.post_at(u));
                }
                return ;
            },
        };
        let ghost mid = *self;
        proof {
            assert(mid.children@[j as int].1.inv());
            assert(lookup_child(mid.children@, c) == Some(mid.children@[j as int].1)) by {
                lemma_lookup_child_at(mid.children@, c, j as int);
            }
        }
        let mut entry = self.children.remove(j);
        let ghost ch1 = entry.1;
        let l = token.unicode_len();
        if pos + 1 < l {
            entry.1.remove_from(doc_ref, token, pos + 1);
            proof {
                assert(token@.skip(pos as int + 1) =~= u.skip(1));
            }
        } else {
            proof {
                assert(u.len() == 1);
                assert(u.skip(1) =~= Seq::<char>::empty());
            }
            match find_doc(&entry.1.docs, doc_ref) {
                Some(k) => {
                    entry.1.docs.remove(k);
                    proof {
                        lemma_doc_map_remove(ch1.docs@, k as int);
                        assert(entry.1.doc_freq >= 1);
                    }
                    entry.1.doc_freq = entry.1.doc_freq - 1;
                },
                None => {
                    proof {
                        assert(doc_map(entry.1.docs@).remove(doc_ref@) =~= doc_map(
                            entry.1.docs@,
                        ));
                    }
                },
            }
            proof {
                lemma_same_children(ch1, entry.1);
                assert(entry.1.post_at(Seq::<char>::empty()) == doc_map(entry.1.docs@));
                assert(ch1.post_at(Seq::<char>::empty()) == doc_map(ch1.docs@));
                assert(entry.1.post_at(Seq::<char>::empty()) == ch1.post_at(
                    Seq::<char>::empty(),
                ).remove(doc_ref@));
                assert forall|s: Seq<char>| s != u.skip(1) implies entry.1.post_at(s)
                    == ch1.post_at(s) by {
                    if s.len() == 0 {
                        assert(s =~= Seq::<char>::empty());
                    } else {
                        assert(entry.1.node_at(s) == ch1.node_at(s));
                    }
                }
            }
        }
        let ghost ch2 = entry.1;
        let ghost gentry = entry;
        self.children.insert(j, entry);
        proof {
            assert(gentry.0 == c);
            assert(self.children@ =~= mid.children@.update(j as int, (c, ch2)));
            lemma_child_surgery(mid, *self, j as int, c, ch1, ch2);
            lemma_lift_remove(mid, *self, c, ch1, ch2, u, doc_ref@);
            assert(self.local_inv());
            assert forall|i: int| 0 <= i < self.children@.len() implies (#[trigger] self.children@[i]).1.inv() by {
                if i == j {
                    assert(self.children@[i].1 == ch2);
                } else {
                    assert(self.children@[i] == mid.children@[i]);
                    assert(orig.children@[i].1.inv());
                }
            }
        }
    }

    /// Walks the whole token and returns the node at its end, if the path
    /// exists.
    pub fn get_node<'a>(&'a self, token: &str) -> (r: Option<&'a IndexItem>)
        requires
            self.inv(),
        ensures
            match r {
                Some(m) => self.node_at(token@) == Some(*m) && m.inv(),
                None => self.node_at(token@) is None,
            },
    {
        let l = token.unicode_len();
        let mut cur: &IndexItem = self;
        let mut i: usize = 0;
        while i < l
            invariant
                l == token@.len(),
                i <= l,
                cur.inv(),
                self.node_at(token@.take(i as int)) == Some(*cur),
            decreases l - i,
        {
            let c = token.get_char(i);
            match find_child(&cur.children, c) {
                Some(j) => {
                    proof {
                        lemma_node_at_concat(*self, token@.take(i as int), seq![c]);
                        assert(token@.take(i as int + 1) =~= token@.take(i as int) + seq![c]);
                        assert(seq![c].len() == 1 && seq![c][0] == c);
                        assert(seq![c].skip(1) =~= Seq::<char>::empty());
                        assert(cur.children@[j as int].1.node_at(seq![c].skip(1))
                            == Some(cur.children@[j as int].1));
                        assert(cur.node_at(seq![c]) == Some(cur.children@[j as int].1));
                    }
                    cur = &cur.children[j].1;
                },
                None => {
                    proof {
                        lemma_node_at_concat(*self, token@.take(i as int), token@.skip(i as int));
                        assert(token@.take(i as int) + token@.skip(i as int) =~= token@);
                        assert(token@.skip(i as int)[0] == c);
                        assert(cur.node_at(token@.skip(i as int)) is None);
                    }
                    return None;
                },
            }
            i += 1;
        }
        proof {
            assert(token@.take(l as int) =~= token@);
        }
        Some(cur)
    }
}

} // verus!
